//! Plain-text rendering of the small TeX subset that labels may carry
//! between `$$` markers.
use vstd::prelude::*;

use crate::names::chars_of;

verus! {

/// `c` is white space in the sense of Unicode's White_Space property (the
/// characters `char::is_whitespace` accepts).
pub open spec fn is_space(c: char) -> bool {
    c == ' ' || ('\t' <= c && c <= '\r') || c == '\u{85}' || c == '\u{a0}' || c == '\u{1680}' || (
    '\u{2000}' <= c && c <= '\u{200a}') || c == '\u{2028}' || c == '\u{2029}' || c == '\u{202f}'
        || c == '\u{205f}' || c == '\u{3000}'
}

/// Whether `c` is white space.
pub fn char_is_space(c: char) -> (res: bool)
    ensures
        res == is_space(c),
{
    c == ' ' || ('\t' <= c && c <= '\r') || c == '\u{85}' || c == '\u{a0}' || c == '\u{1680}' || (
    '\u{2000}' <= c && c <= '\u{200a}') || c == '\u{2028}' || c == '\u{2029}' || c == '\u{202f}'
        || c == '\u{205f}' || c == '\u{3000}'
}

/// `c` is an ASCII letter.
pub open spec fn is_ascii_letter(c: char) -> bool {
    ('A' <= c && c <= 'Z') || ('a' <= c && c <= 'z')
}

/// `c` is a curly brace.
pub open spec fn is_brace(c: char) -> bool {
    c == '{' || c == '}'
}

/// Number of curly braces in `s`.
pub open spec fn braces(s: Seq<char>) -> nat
    decreases s.len(),
{
    if s.len() == 0 {
        0
    } else {
        braces(s.drop_last()) + (if is_brace(s.last()) {
            1nat
        } else {
            0nat
        })
    }
}

/// `s` holds no curly brace.
pub open spec fn brace_free(s: Seq<char>) -> bool {
    forall|i: int| 0 <= i < s.len() ==> !is_brace(#[trigger] s[i])
}

pub proof fn lemma_braces_concat(a: Seq<char>, b: Seq<char>)
    ensures
        braces(a + b) == braces(a) + braces(b),
    decreases b.len(),
{
    if b.len() == 0 {
        assert(a + b =~= a);
    } else {
        lemma_braces_concat(a, b.drop_last());
        assert((a + b).drop_last() =~= a + b.drop_last());
    }
}

pub proof fn lemma_brace_free_braces(s: Seq<char>)
    requires
        brace_free(s),
    ensures
        braces(s) == 0,
    decreases s.len(),
{
    if s.len() > 0 {
        assert forall|i: int| 0 <= i < s.drop_last().len() implies !is_brace(#[trigger] s.drop_last()[i]) by {
            assert(s.drop_last()[i] == s[i]);
        }
        lemma_brace_free_braces(s.drop_last());
        assert(!is_brace(s[s.len() - 1]));
    }
}

/// A brace inside `s` counts.
pub proof fn lemma_brace_counts(s: Seq<char>, j: int)
    requires
        0 <= j < s.len(),
        is_brace(s[j]),
    ensures
        braces(s) >= 1,
        braces(s.subrange(j + 1, s.len() as int)) + 1 <= braces(s),
{
    let a = s.take(j);
    let b = s.subrange(j, j + 1);
    let c = s.subrange(j + 1, s.len() as int);
    assert(s =~= a + b + c);
    lemma_braces_concat(a + b, c);
    lemma_braces_concat(a, b);
    assert(b.drop_last() =~= Seq::<char>::empty());
    assert(b.last() == s[j]);
}

/// `a` has fewer braces than `b`, or as many and fewer characters.
pub open spec fn smaller(a: Seq<char>, b: Seq<char>) -> bool {
    braces(a) < braces(b) || (braces(a) == braces(b) && a.len() < b.len())
}

/// First position from `i` on that is not white space.
pub open spec fn skip_spaces(s: Seq<char>, i: int) -> int
    decreases s.len() - i,
{
    if 0 <= i < s.len() && is_space(s[i]) {
        skip_spaces(s, i + 1)
    } else {
        i
    }
}

/// First position from `i` on that is not an ASCII letter.
pub open spec fn letters_end(s: Seq<char>, i: int) -> int
    decreases s.len() - i,
{
    if 0 <= i < s.len() && is_ascii_letter(s[i]) {
        letters_end(s, i + 1)
    } else {
        i
    }
}

/// Scanning from `i` with `depth` braces open: the position where the depth
/// returns to zero at a closing brace (a closing brace at depth zero stays
/// at zero).
pub open spec fn brace_scan(s: Seq<char>, i: int, depth: nat) -> Option<int>
    decreases s.len() - i,
{
    if i < 0 || i >= s.len() {
        None
    } else if s[i] == '{' {
        brace_scan(s, i + 1, depth + 1)
    } else if s[i] == '}' {
        let d: nat = if depth == 0 {
            0
        } else {
            (depth - 1) as nat
        };
        if d == 0 {
            Some(i)
        } else {
            brace_scan(s, i + 1, d)
        }
    } else {
        brace_scan(s, i + 1, depth)
    }
}

/// The closing brace matching the opening brace at `open`.
pub open spec fn matching_brace(s: Seq<char>, open: int) -> Option<int> {
    if 0 <= open < s.len() && s[open] == '{' {
        brace_scan(s, open, 0)
    } else {
        None
    }
}

/// Where reading a braced group from `i` leaves off: after the group, or
/// after the white space before a missing group.
pub open spec fn group_end(s: Seq<char>, i: int) -> int {
    let j = skip_spaces(s, i);
    match matching_brace(s, j) {
        Some(e) => e + 1,
        None => j,
    }
}

pub proof fn lemma_skip_spaces(s: Seq<char>, i: int)
    requires
        0 <= i,
    ensures
        i <= skip_spaces(s, i),
        skip_spaces(s, i) <= i || skip_spaces(s, i) <= s.len(),
        forall|k: int| i <= k < skip_spaces(s, i) ==> is_space(#[trigger] s[k]),
        skip_spaces(s, i) < s.len() ==> !is_space(s[skip_spaces(s, i)]),
    decreases s.len() - i,
{
    if 0 <= i < s.len() && is_space(s[i]) {
        lemma_skip_spaces(s, i + 1);
    }
}

pub proof fn lemma_letters_end(s: Seq<char>, i: int)
    requires
        0 <= i,
    ensures
        i <= letters_end(s, i),
        letters_end(s, i) <= i || letters_end(s, i) <= s.len(),
        forall|k: int| i <= k < letters_end(s, i) ==> is_ascii_letter(#[trigger] s[k]),
        letters_end(s, i) < s.len() ==> !is_ascii_letter(s[letters_end(s, i)]),
    decreases s.len() - i,
{
    if 0 <= i < s.len() && is_ascii_letter(s[i]) {
        lemma_letters_end(s, i + 1);
    }
}

pub proof fn lemma_brace_scan(s: Seq<char>, i: int, depth: nat)
    ensures
        brace_scan(s, i, depth) matches Some(e) ==> i <= e < s.len() && s[e] == '}',
    decreases s.len() - i,
{
    if 0 <= i < s.len() {
        if s[i] == '{' {
            lemma_brace_scan(s, i + 1, depth + 1);
        } else if s[i] == '}' {
            let d: nat = if depth == 0 {
                0
            } else {
                (depth - 1) as nat
            };
            if d != 0 {
                lemma_brace_scan(s, i + 1, d);
            }
        } else {
            lemma_brace_scan(s, i + 1, depth);
        }
    }
}

/// A matched group lies strictly between its braces, and holds fewer braces
/// than the whole text.
pub proof fn lemma_matching_brace(s: Seq<char>, open: int)
    ensures
        matching_brace(s, open) matches Some(e) ==> 0 <= open < e < s.len() && s[open] == '{' && s[e] == '}'
            && braces(s.subrange(open + 1, e)) < braces(s),
{
    if 0 <= open < s.len() && s[open] == '{' {
        lemma_brace_scan(s, open + 1, 1);
        if let Some(e) = matching_brace(s, open) {
            let inner = s.subrange(open + 1, e);
            let rest = s.subrange(open + 1, s.len() as int);
            lemma_brace_counts(s, open);
            assert(rest =~= inner + s.subrange(e, s.len() as int));
            lemma_braces_concat(inner, s.subrange(e, s.len() as int));
        }
    }
}

pub proof fn lemma_group_end(s: Seq<char>, i: int)
    requires
        0 <= i,
    ensures
        i <= group_end(s, i),
{
    lemma_skip_spaces(s, i);
    lemma_matching_brace(s, skip_spaces(s, i));
}

/// Characters of `s` from position `i` on (none for a position outside).
pub open spec fn remaining(s: Seq<char>, i: int) -> nat {
    if 0 <= i < s.len() {
        (s.len() - i) as nat
    } else {
        0
    }
}

/// What a backslash command stands for.
pub enum Command {
    /// `\sqrt{x}`: a root sign before the bracketed group.
    Sqrt,
    /// `\frac{a}{b}`: the two groups as a bracketed quotient.
    Frac,
    /// `\text{..}` or `\overbrace{..}`: the group as it is.
    Group,
    /// `\begin{..}` (`true`) or `\end{..}`: a bracket for a matrix environment.
    Env(bool),
    /// A Greek letter.
    Symbol(char),
    /// `\left`, `\right`, `\cdot`: nothing.
    Silent,
    /// Any other name, written out as it is.
    Verbatim,
    /// A backslash followed by no letter.
    Backslash,
}

/// The meaning of the command named `c`.
pub open spec fn command_of(c: Seq<char>) -> Command {
    if c == seq!['s', 'q', 'r', 't'] {
        Command::Sqrt
    } else if c == seq!['f', 'r', 'a', 'c'] {
        Command::Frac
    } else if c == seq!['t', 'e', 'x', 't'] || c == seq!['o', 'v', 'e', 'r', 'b', 'r', 'a', 'c', 'e'] {
        Command::Group
    } else if c == seq!['b', 'e', 'g', 'i', 'n'] {
        Command::Env(true)
    } else if c == seq!['e', 'n', 'd'] {
        Command::Env(false)
    } else if c == seq!['p', 'i'] {
        Command::Symbol('π')
    } else if c == seq!['a', 'l', 'p', 'h', 'a'] {
        Command::Symbol('α')
    } else if c == seq!['b', 'e', 't', 'a'] {
        Command::Symbol('β')
    } else if c == seq!['g', 'a', 'm', 'm', 'a'] {
        Command::Symbol('γ')
    } else if c == seq!['d', 'e', 'l', 't', 'a'] {
        Command::Symbol('δ')
    } else if c == seq!['l', 'a', 'm', 'b', 'd', 'a'] {
        Command::Symbol('λ')
    } else if c == seq!['m', 'u'] {
        Command::Symbol('μ')
    } else if c == seq!['s', 'i', 'g', 'm', 'a'] {
        Command::Symbol('σ')
    } else if c == seq!['t', 'h', 'e', 't', 'a'] {
        Command::Symbol('θ')
    } else if c == seq!['l', 'e', 'f', 't'] || c == seq!['r', 'i', 'g', 'h', 't'] || c == seq![
        'c',
        'd',
        'o',
        't',
    ] {
        Command::Silent
    } else if c.len() == 0 {
        Command::Backslash
    } else {
        Command::Verbatim
    }
}

/// The name of the `k`-th lowercase Greek letter, counting from 0 in
/// alphabetical order (α, β, γ, ... ω).
pub open spec fn greek_name(k: int) -> Seq<char> {
    if k == 0 {
        seq!['a', 'l', 'p', 'h', 'a']
    } else if k == 1 {
        seq!['b', 'e', 't', 'a']
    } else if k == 2 {
        seq!['g', 'a', 'm', 'm', 'a']
    } else if k == 3 {
        seq!['d', 'e', 'l', 't', 'a']
    } else if k == 4 {
        seq!['e', 'p', 's', 'i', 'l', 'o', 'n']
    } else if k == 5 {
        seq!['z', 'e', 't', 'a']
    } else if k == 6 {
        seq!['e', 't', 'a']
    } else if k == 7 {
        seq!['t', 'h', 'e', 't', 'a']
    } else if k == 8 {
        seq!['i', 'o', 't', 'a']
    } else if k == 9 {
        seq!['k', 'a', 'p', 'p', 'a']
    } else if k == 10 {
        seq!['l', 'a', 'm', 'b', 'd', 'a']
    } else if k == 11 {
        seq!['m', 'u']
    } else if k == 12 {
        seq!['n', 'u']
    } else if k == 13 {
        seq!['x', 'i']
    } else if k == 14 {
        seq!['o', 'm', 'i', 'c', 'r', 'o', 'n']
    } else if k == 15 {
        seq!['p', 'i']
    } else if k == 16 {
        seq!['r', 'h', 'o']
    } else if k == 17 {
        seq!['s', 'i', 'g', 'm', 'a']
    } else if k == 18 {
        seq!['t', 'a', 'u']
    } else if k == 19 {
        seq!['u', 'p', 's', 'i', 'l', 'o', 'n']
    } else if k == 20 {
        seq!['p', 'h', 'i']
    } else if k == 21 {
        seq!['c', 'h', 'i']
    } else if k == 22 {
        seq!['p', 's', 'i']
    } else {
        seq!['o', 'm', 'e', 'g', 'a']
    }
}

/// The `k`-th lowercase Greek letter: Unicode places them in alphabetical
/// order from U+03B1 (α), with the final sigma U+03C2 just before σ.
pub open spec fn greek_letter(k: int) -> char {
    (0x3B1 + k + (if k >= 17 {
        1int
    } else {
        0int
    })) as char
}

/// The Greek letters that labels can name: α, β, γ, δ, θ, λ, μ, π and σ.
pub open spec fn named_greek(k: int) -> bool {
    k == 0 || k == 1 || k == 2 || k == 3 || k == 7 || k == 10 || k == 11 || k == 15 || k == 17
}

proof fn lemma_letters_run(s: Seq<char>, i: int, e: int)
    requires
        0 <= i <= e <= s.len(),
        forall|j: int| i <= j < e ==> is_ascii_letter(#[trigger] s[j]),
        e < s.len() ==> !is_ascii_letter(s[e]),
    ensures
        letters_end(s, i) == e,
    decreases e - i,
{
    if i < e {
        lemma_letters_run(s, i + 1, e);
    }
}

/// A Greek-letter command writes its own letter, and reading goes on right
/// after its name: `\theta` in any text renders as θ.
pub proof fn lemma_greek_command(s: Seq<char>, i: int, k: int)
    requires
        named_greek(k),
        0 <= i,
        i + 1 + greek_name(k).len() <= s.len(),
        s[i] == '\\',
        s.subrange(i + 1, i + 1 + greek_name(k).len()) == greek_name(k),
        i + 1 + greek_name(k).len() < s.len() ==> !is_ascii_letter(s[i + 1 + greek_name(k).len()]),
    ensures
        render_from(s, i) == seq![greek_letter(k)] + render_from(s, i + 1 + greek_name(k).len()),
{
    let name = greek_name(k);
    let e = i + 1 + name.len();
    assert forall|j: int| i + 1 <= j < e implies is_ascii_letter(#[trigger] s[j]) by {
        assert(s[j] == s.subrange(i + 1, e)[j - i - 1]);
        assert(0 <= j - i - 1 < name.len());
        if k == 0 {} else if k == 1 {} else if k == 2 {} else if k == 3 {} else if k == 7 {} else if k == 10 {
        } else if k == 11 {} else if k == 15 {} else {}
    }
    lemma_letters_run(s, i + 1, e);
    assert(is_ascii_letter(s[i + 1]));
    let cmd = s.subrange(i + 1, e);
    assert(cmd == name);
    if k == 0 {
        assert(command_of(cmd) == Command::Symbol('α'));
    } else if k == 1 {
        assert(command_of(cmd) == Command::Symbol('β'));
    } else if k == 2 {
        assert(command_of(cmd) == Command::Symbol('γ'));
    } else if k == 3 {
        assert(command_of(cmd) == Command::Symbol('δ'));
    } else if k == 7 {
        assert(command_of(cmd) == Command::Symbol('θ'));
    } else if k == 10 {
        assert(command_of(cmd) == Command::Symbol('λ'));
    } else if k == 11 {
        assert(command_of(cmd) == Command::Symbol('μ'));
    } else if k == 15 {
        assert(command_of(cmd) == Command::Symbol('π'));
    } else {
        assert(command_of(cmd) == Command::Symbol('σ'));
    }
}

/// A Greek-letter command alone renders as its letter: `\theta` as θ.
pub proof fn lemma_greek_alone(k: int)
    requires
        named_greek(k),
    ensures
        render(seq!['\\'] + greek_name(k)) == seq![greek_letter(k)],
{
    let s = seq!['\\'] + greek_name(k);
    let e: int = 1 + greek_name(k).len() as int;
    assert(s.subrange(1, e) =~= greek_name(k));
    lemma_greek_command(s, 0, k);
    assert(render_from(s, e) == Seq::<char>::empty());
    let c = greek_letter(k);
    assert(!is_space(c));
    let x = seq![c];
    assert(render_from(s, 0) =~= x);
    assert(collapse_from(x, 1, false, true) == Seq::<char>::empty());
    assert(collapse_from(x, 0, false, false) =~= seq![c]);
}

/// The superscript (`sup`) or subscript form of `c`, for digits, `+`, `-`,
/// `=` and round brackets.
pub open spec fn script_char(c: char, sup: bool) -> Option<char> {
    if c == '0' {
        Some(if sup { '⁰' } else { '₀' })
    } else if c == '1' {
        Some(if sup { '¹' } else { '₁' })
    } else if c == '2' {
        Some(if sup { '²' } else { '₂' })
    } else if c == '3' {
        Some(if sup { '³' } else { '₃' })
    } else if c == '4' {
        Some(if sup { '⁴' } else { '₄' })
    } else if c == '5' {
        Some(if sup { '⁵' } else { '₅' })
    } else if c == '6' {
        Some(if sup { '⁶' } else { '₆' })
    } else if c == '7' {
        Some(if sup { '⁷' } else { '₇' })
    } else if c == '8' {
        Some(if sup { '⁸' } else { '₈' })
    } else if c == '9' {
        Some(if sup { '⁹' } else { '₉' })
    } else if c == '+' {
        Some(if sup { '⁺' } else { '₊' })
    } else if c == '-' {
        Some(if sup { '⁻' } else { '₋' })
    } else if c == '=' {
        Some(if sup { '⁼' } else { '₌' })
    } else if c == '(' {
        Some(if sup { '⁽' } else { '₍' })
    } else if c == ')' {
        Some(if sup { '⁾' } else { '₎' })
    } else {
        None
    }
}

/// The superscript form of the digit of value `v`: Unicode keeps ¹, ² and ³
/// at U+00B9, U+00B2 and U+00B3, and the other digits at U+2070 + `v`.
pub open spec fn superscript_digit(v: int) -> char {
    (if v == 1 {
        0xB9int
    } else if v == 2 {
        0xB2int
    } else if v == 3 {
        0xB3int
    } else {
        0x2070 + v
    }) as char
}

/// The subscript form of the digit of value `v`: U+2080 + `v`.
pub open spec fn subscript_digit(v: int) -> char {
    (0x2080 + v) as char
}

/// A digit right after `^` is written as the superscript digit, and one
/// right after `_` as the subscript digit; reading goes on after it.
pub proof fn lemma_script_digit(s: Seq<char>, i: int)
    requires
        0 <= i,
        i + 1 < s.len(),
        s[i] == '^' || s[i] == '_',
        '0' <= s[i + 1] <= '9',
    ensures
        render_from(s, i) == seq![
            if s[i] == '^' {
                superscript_digit(s[i + 1] as int - '0' as int)
            } else {
                subscript_digit(s[i + 1] as int - '0' as int)
            },
        ] + render_from(s, i + 2),
{
    let d = s[i + 1];
    let sup = s[i] == '^';
    let script = seq![d];
    assert(script.drop_last() =~= Seq::<char>::empty());
    assert(braces(Seq::<char>::empty()) == 0);
    assert(script.last() == d && !is_brace(d));
    assert(braces(script) == 0);
    assert(smaller(script, s));
    assert(script_char(d, sup) is Some) by {
        if d == '0' {} else if d == '1' {} else if d == '2' {} else if d == '3' {} else if d == '4' {
        } else if d == '5' {} else if d == '6' {} else if d == '7' {} else if d == '8' {} else {}
    }
    assert(all_scripted(script, sup));
    let c = if sup {
        superscript_digit(d as int - '0' as int)
    } else {
        subscript_digit(d as int - '0' as int)
    };
    assert(script_of(d, sup) == c) by {
        if d == '0' {} else if d == '1' {} else if d == '2' {} else if d == '3' {} else if d == '4' {
        } else if d == '5' {} else if d == '6' {} else if d == '7' {} else if d == '8' {} else {}
    }
    assert(script_text(script, sup) =~= seq![c]);
}

/// `\sqrt{x}` writes a root sign and the rendered `x` in brackets, and
/// reading goes on after the group's closing brace.
pub proof fn lemma_sqrt_command(s: Seq<char>, i: int, e: int)
    requires
        0 <= i,
        i + 5 < s.len(),
        s.subrange(i, i + 6) == seq!['\\', 's', 'q', 'r', 't', '{'],
        matching_brace(s, i + 5) == Some(e),
    ensures
        render_from(s, i) == seq!['√', '('] + render(s.subrange(i + 6, e)) + seq![')'] + render_from(s, e + 1),
{
    let name = seq!['s', 'q', 'r', 't'];
    assert forall|j: int| i + 1 <= j < i + 5 implies is_ascii_letter(#[trigger] s[j]) by {
        assert(s[j] == s.subrange(i, i + 6)[j - i]);
    }
    assert(s[i + 5] == s.subrange(i, i + 6)[5]);
    assert(s[i] == s.subrange(i, i + 6)[0]);
    assert(s[i + 1] == s.subrange(i, i + 6)[1]);
    lemma_letters_run(s, i + 1, i + 5);
    assert(s.subrange(i + 1, i + 5) =~= name);
    assert(command_of(name) == Command::Sqrt);
    assert(skip_spaces(s, i + 5) == i + 5);
    assert(group_text(s, i + 5) == Some(render(s.subrange(i + 6, e))));
    assert(group_end(s, i + 5) == e + 1);
}

/// `\frac{a}{b}` writes the rendered `a` and `b` in brackets on either side
/// of a slash, and reading goes on after the second group.
pub proof fn lemma_frac_command(s: Seq<char>, i: int, e1: int, e2: int)
    requires
        0 <= i,
        i + 5 < s.len(),
        s.subrange(i, i + 6) == seq!['\\', 'f', 'r', 'a', 'c', '{'],
        matching_brace(s, i + 5) == Some(e1),
        e1 + 1 < s.len(),
        s[e1 + 1] == '{',
        matching_brace(s, e1 + 1) == Some(e2),
    ensures
        render_from(s, i) == seq!['('] + render(s.subrange(i + 6, e1)) + seq![')', '/', '('] + render(
            s.subrange(e1 + 2, e2),
        ) + seq![')'] + render_from(s, e2 + 1),
{
    let name = seq!['f', 'r', 'a', 'c'];
    assert forall|j: int| i + 1 <= j < i + 5 implies is_ascii_letter(#[trigger] s[j]) by {
        assert(s[j] == s.subrange(i, i + 6)[j - i]);
    }
    assert(s[i + 5] == s.subrange(i, i + 6)[5]);
    assert(s[i] == s.subrange(i, i + 6)[0]);
    assert(s[i + 1] == s.subrange(i, i + 6)[1]);
    lemma_letters_run(s, i + 1, i + 5);
    assert(s.subrange(i + 1, i + 5) =~= name);
    assert(command_of(name) == Command::Frac);
    assert(skip_spaces(s, i + 5) == i + 5);
    assert(group_text(s, i + 5) == Some(render(s.subrange(i + 6, e1))));
    assert(group_end(s, i + 5) == e1 + 1);
    assert(skip_spaces(s, e1 + 1) == e1 + 1);
    assert(group_text(s, e1 + 1) == Some(render(s.subrange(e1 + 2, e2))));
    assert(group_end(s, e1 + 1) == e2 + 1);
}

/// Every character of `v` has a script form.
pub open spec fn all_scripted(v: Seq<char>, sup: bool) -> bool {
    forall|k: int| 0 <= k < v.len() ==> #[trigger] script_char(v[k], sup) is Some
}

/// The script form of `c` (meaningful where it has one).
pub open spec fn script_of(c: char, sup: bool) -> char {
    match script_char(c, sup) {
        Some(m) => m,
        None => c,
    }
}

/// The group's text, or nothing where no group was found.
pub open spec fn group_or_empty(g: Option<Seq<char>>) -> Seq<char> {
    match g {
        Some(t) => t,
        None => Seq::empty(),
    }
}

/// `w` occurs in `h` at position `p`.
pub open spec fn occurs_at(h: Seq<char>, w: Seq<char>, p: int) -> bool {
    0 <= p && p + w.len() <= h.len() && h.subrange(p, p + w.len()) == w
}

/// `w` occurs somewhere in `h`.
pub open spec fn contains_seq(h: Seq<char>, w: Seq<char>) -> bool {
    exists|p: int| occurs_at(h, w, p)
}

/// The word that marks a matrix environment.
pub open spec fn matrix_word() -> Seq<char> {
    seq!['m', 'a', 't', 'r', 'i', 'x']
}

/// The text of `s` with every run of white space made one space and none
/// at either end (the words of `s` joined by single spaces).
pub open spec fn collapse(x: Seq<char>) -> Seq<char> {
    collapse_from(x, 0, false, false)
}

/// `collapse` from position `i` on: `started` once a word was written,
/// `gap` when a space is owed before the next word.
pub open spec fn collapse_from(x: Seq<char>, i: int, gap: bool, started: bool) -> Seq<char>
    decreases remaining(x, i),
{
    if i < 0 || i >= x.len() {
        Seq::empty()
    } else if is_space(x[i]) {
        collapse_from(x, i + 1, started, started)
    } else {
        (if gap {
            seq![' ']
        } else {
            Seq::empty()
        }) + seq![x[i]] + collapse_from(x, i + 1, false, true)
    }
}

/// Plain text of the TeX source `s`.
pub open spec fn render(s: Seq<char>) -> Seq<char>
    decreases braces(s), s.len(), s.len() + 1,
{
    collapse(render_from(s, 0))
}

/// The rendered braced group that starts at the first non-space position
/// from `i` on, if a group starts there and is closed.
pub open spec fn group_text(s: Seq<char>, i: int) -> Option<Seq<char>>
    decreases braces(s), s.len(), remaining(s, i),
{
    let j = skip_spaces(s, i);
    match matching_brace(s, j) {
        Some(e) => {
            proof {
                lemma_matching_brace(s, j);
            }
            Some(render(s.subrange(j + 1, e)))
        },
        None => None,
    }
}

/// A superscript (`sup`) or subscript of text `v`: in script characters
/// where every character has one, else as `^(..)` or `_(..)` around the
/// rendered text.
pub open spec fn script_text(v: Seq<char>, sup: bool) -> Seq<char>
    decreases braces(v), v.len(), v.len() + 2,
{
    if v.len() > 0 && all_scripted(v, sup) {
        v.map_values(|c: char| script_of(c, sup))
    } else {
        seq![if sup { '^' } else { '_' }, '('] + render(v) + seq![')']
    }
}

/// Plain text of `s` from position `i` on, before white space is collapsed.
pub open spec fn render_from(s: Seq<char>, i: int) -> Seq<char>
    decreases braces(s), s.len(), remaining(s, i),
{
    if i < 0 || i >= s.len() {
        Seq::empty()
    } else if s[i] == '\\' {
        if i + 1 < s.len() && s[i + 1] == '\\' {
            seq![';', ' '] + render_from(s, i + 2)
        } else {
            proof {
                lemma_letters_end(s, i + 1);
            }
            let k = letters_end(s, i + 1);
            let cmd = s.subrange(i + 1, k);
            proof {
                lemma_group_end(s, k);
                lemma_group_end(s, group_end(s, k));
            }
            match command_of(cmd) {
                Command::Sqrt => (match group_text(s, k) {
                    Some(g) => seq!['√', '('] + g + seq![')'],
                    None => Seq::empty(),
                }) + render_from(s, group_end(s, k)),
                Command::Frac => {
                    let k2 = group_end(s, k);
                    seq!['('] + group_or_empty(group_text(s, k)) + seq![')', '/', '(']
                        + group_or_empty(group_text(s, k2)) + seq![')'] + render_from(
                        s,
                        group_end(s, k2),
                    )
                },
                Command::Group => group_or_empty(group_text(s, k)) + render_from(s, group_end(s, k)),
                Command::Env(open) => (if contains_seq(
                    group_or_empty(group_text(s, k)),
                    matrix_word(),
                ) {
                    seq![if open { '[' } else { ']' }]
                } else {
                    Seq::empty()
                }) + render_from(s, group_end(s, k)),
                Command::Symbol(x) => seq![x] + render_from(s, k),
                Command::Silent => render_from(s, k),
                Command::Verbatim => cmd + render_from(s, k),
                Command::Backslash => seq!['\\'] + render_from(s, k),
            }
        }
    } else if s[i] == '^' || s[i] == '_' {
        let sup = s[i] == '^';
        let j = i + 1;
        proof {
            lemma_group_end(s, j);
        }
        let braced = j < s.len() && s[j] == '{';
        let script = if braced {
            group_or_empty(group_text(s, j))
        } else if j < s.len() {
            seq![s[j]]
        } else {
            Seq::empty()
        };
        let next = if braced {
            group_end(s, j)
        } else if j < s.len() {
            j + 1
        } else {
            j
        };
        // the script is always smaller than `s`; the test makes that visible
        // to the measure of this recursion
        (if smaller(script, s) {
            script_text(script, sup)
        } else {
            Seq::empty()
        }) + render_from(s, next)
    } else if s[i] == '{' || s[i] == '}' {
        render_from(s, i + 1)
    } else if s[i] == '&' {
        seq![' '] + render_from(s, i + 1)
    } else {
        seq![s[i]] + render_from(s, i + 1)
    }
}

proof fn lemma_free_concat(a: Seq<char>, b: Seq<char>)
    requires
        brace_free(a),
        brace_free(b),
    ensures
        brace_free(a + b),
{
    assert forall|i: int| 0 <= i < (a + b).len() implies !is_brace(#[trigger] (a + b)[i]) by {
        if i < a.len() {
            assert((a + b)[i] == a[i]);
        } else {
            assert((a + b)[i] == b[i - a.len()]);
        }
    }
}

proof fn lemma_collapse_free(x: Seq<char>, i: int, gap: bool, started: bool)
    requires
        brace_free(x),
    ensures
        brace_free(collapse_from(x, i, gap, started)),
    decreases remaining(x, i),
{
    if 0 <= i < x.len() {
        if is_space(x[i]) {
            lemma_collapse_free(x, i + 1, started, started);
        } else {
            lemma_collapse_free(x, i + 1, false, true);
            let pre = (if gap {
                seq![' ']
            } else {
                Seq::empty()
            }) + seq![x[i]];
            assert(brace_free(pre));
            lemma_free_concat(pre, collapse_from(x, i + 1, false, true));
        }
    }
}

/// Rendered text has no braces.
pub proof fn lemma_render_free(s: Seq<char>)
    ensures
        brace_free(render(s)),
    decreases braces(s), s.len(), s.len() + 1,
{
    lemma_render_from_free(s, 0);
    lemma_collapse_free(render_from(s, 0), 0, false, false);
}

proof fn lemma_group_text_free(s: Seq<char>, i: int)
    ensures
        group_text(s, i) matches Some(g) ==> brace_free(g),
    decreases braces(s), s.len(), remaining(s, i),
{
    let j = skip_spaces(s, i);
    match matching_brace(s, j) {
        Some(e) => {
            lemma_matching_brace(s, j);
            lemma_render_free(s.subrange(j + 1, e));
        },
        None => {},
    }
}

proof fn lemma_script_text_free(v: Seq<char>, sup: bool)
    ensures
        brace_free(script_text(v, sup)),
    decreases braces(v), v.len(), v.len() + 2,
{
    if v.len() > 0 && all_scripted(v, sup) {
        let m = v.map_values(|c: char| script_of(c, sup));
        assert forall|k: int| 0 <= k < m.len() implies !is_brace(#[trigger] m[k]) by {
            assert(script_char(v[k], sup) is Some);
        }
    } else {
        lemma_render_free(v);
        let a = seq![if sup { '^' } else { '_' }, '('];
        lemma_free_concat(a, render(v));
        lemma_free_concat(a + render(v), seq![')']);
    }
}

/// The plain text of `s` from any position on has no braces.
pub proof fn lemma_render_from_free(s: Seq<char>, i: int)
    ensures
        brace_free(render_from(s, i)),
    decreases braces(s), s.len(), remaining(s, i),
{
    if i < 0 || i >= s.len() {
    } else if s[i] == '\\' {
        if i + 1 < s.len() && s[i + 1] == '\\' {
            lemma_render_from_free(s, i + 2);
            lemma_free_concat(seq![';', ' '], render_from(s, i + 2));
        } else {
            lemma_letters_end(s, i + 1);
            let k = letters_end(s, i + 1);
            let cmd = s.subrange(i + 1, k);
            lemma_group_end(s, k);
            lemma_group_end(s, group_end(s, k));
            match command_of(cmd) {
                Command::Sqrt => {
                    lemma_group_text_free(s, k);
                    lemma_render_from_free(s, group_end(s, k));
                    let head = match group_text(s, k) {
                        Some(g) => seq!['√', '('] + g + seq![')'],
                        None => Seq::empty(),
                    };
                    match group_text(s, k) {
                        Some(g) => {
                            lemma_free_concat(seq!['√', '('], g);
                            lemma_free_concat(seq!['√', '('] + g, seq![')']);
                        },
                        None => {},
                    }
                    lemma_free_concat(head, render_from(s, group_end(s, k)));
                },
                Command::Frac => {
                    let k2 = group_end(s, k);
                    lemma_group_text_free(s, k);
                    lemma_group_text_free(s, k2);
                    lemma_render_from_free(s, group_end(s, k2));
                    let a = group_or_empty(group_text(s, k));
                    let b = group_or_empty(group_text(s, k2));
                    lemma_free_concat(seq!['('], a);
                    lemma_free_concat(seq!['('] + a, seq![')', '/', '(']);
                    lemma_free_concat(seq!['('] + a + seq![')', '/', '('], b);
                    lemma_free_concat(seq!['('] + a + seq![')', '/', '('] + b, seq![')']);
                    lemma_free_concat(seq!['('] + a + seq![')', '/', '('] + b + seq![')'], render_from(s, group_end(s, k2)));
                },
                Command::Group => {
                    lemma_group_text_free(s, k);
                    lemma_render_from_free(s, group_end(s, k));
                    lemma_free_concat(group_or_empty(group_text(s, k)), render_from(s, group_end(s, k)));
                },
                Command::Env(open) => {
                    lemma_render_from_free(s, group_end(s, k));
                    let head = if contains_seq(group_or_empty(group_text(s, k)), matrix_word()) {
                        seq![if open { '[' } else { ']' }]
                    } else {
                        Seq::empty()
                    };
                    lemma_free_concat(head, render_from(s, group_end(s, k)));
                },
                Command::Symbol(x) => {
                    lemma_render_from_free(s, k);
                    assert(!is_brace(x));
                    lemma_free_concat(seq![x], render_from(s, k));
                },
                Command::Silent => {
                    lemma_render_from_free(s, k);
                },
                Command::Verbatim => {
                    lemma_render_from_free(s, k);
                    assert forall|t: int| 0 <= t < cmd.len() implies !is_brace(#[trigger] cmd[t]) by {
                        assert(is_ascii_letter(s[i + 1 + t]));
                    }
                    lemma_free_concat(cmd, render_from(s, k));
                },
                Command::Backslash => {
                    lemma_render_from_free(s, k);
                    lemma_free_concat(seq!['\\'], render_from(s, k));
                },
            }
        }
    } else if s[i] == '^' || s[i] == '_' {
        let sup = s[i] == '^';
        let j = i + 1;
        lemma_group_end(s, j);
        let braced = j < s.len() && s[j] == '{';
        let script = if braced {
            group_or_empty(group_text(s, j))
        } else if j < s.len() {
            seq![s[j]]
        } else {
            Seq::empty()
        };
        let next = if braced {
            group_end(s, j)
        } else if j < s.len() {
            j + 1
        } else {
            j
        };
        lemma_render_from_free(s, next);
        if smaller(script, s) {
            lemma_script_text_free(script, sup);
            lemma_free_concat(script_text(script, sup), render_from(s, next));
        } else {
            lemma_free_concat(Seq::empty(), render_from(s, next));
        }
    } else if s[i] == '{' || s[i] == '}' {
        lemma_render_from_free(s, i + 1);
    } else if s[i] == '&' {
        lemma_render_from_free(s, i + 1);
        lemma_free_concat(seq![' '], render_from(s, i + 1));
    } else {
        lemma_render_from_free(s, i + 1);
        lemma_free_concat(seq![s[i]], render_from(s, i + 1));
    }
}

/// The superscript or subscript that `render_from` reads at a `^` or `_`
/// always has fewer braces than the whole text, or as many and fewer
/// characters: the test on it in `render_from` never fails.
pub proof fn lemma_script_smaller(s: Seq<char>, i: int)
    requires
        0 <= i < s.len(),
        s[i] == '^' || s[i] == '_',
    ensures
        ({
            let j = i + 1;
            let script = if j < s.len() && s[j] == '{' {
                group_or_empty(group_text(s, j))
            } else if j < s.len() {
                seq![s[j]]
            } else {
                Seq::empty()
            };
            smaller(script, s)
        }),
{
    let j = i + 1;
    assert(braces(Seq::<char>::empty()) == 0);
    if j < s.len() && s[j] == '{' {
        lemma_group_text_free(s, j);
        lemma_brace_free_braces(group_or_empty(group_text(s, j)));
        lemma_brace_counts(s, j);
    } else if j < s.len() {
        let script = seq![s[j]];
        assert(script.drop_last() =~= Seq::<char>::empty());
        if is_brace(s[j]) {
            lemma_brace_counts(s, j);
        }
    }
}

/// Whether `a` and `b` hold the same characters.
fn same_chars(a: &Vec<char>, b: &Vec<char>) -> (res: bool)
    ensures
        res == (a@ == b@),
{
    if a.len() != b.len() {
        return false;
    }
    let mut i: usize = 0;
    while i < a.len()
        invariant
            i <= a.len(),
            a.len() == b.len(),
            forall|k: int| 0 <= k < i ==> a@[k] == b@[k],
        decreases a.len() - i,
    {
        if a[i] != b[i] {
            return false;
        }
        i += 1;
    }
    proof {
        assert(a@ =~= b@);
    }
    true
}

/// The meaning of the command named by `c`.
fn classify(c: &Vec<char>) -> (k: Command)
    ensures
        k == command_of(c@),
{
    if same_chars(c, &vec!['s', 'q', 'r', 't']) {
        Command::Sqrt
    } else if same_chars(c, &vec!['f', 'r', 'a', 'c']) {
        Command::Frac
    } else if same_chars(c, &vec!['t', 'e', 'x', 't']) || same_chars(
        c,
        &vec!['o', 'v', 'e', 'r', 'b', 'r', 'a', 'c', 'e'],
    ) {
        Command::Group
    } else if same_chars(c, &vec!['b', 'e', 'g', 'i', 'n']) {
        Command::Env(true)
    } else if same_chars(c, &vec!['e', 'n', 'd']) {
        Command::Env(false)
    } else if same_chars(c, &vec!['p', 'i']) {
        Command::Symbol('π')
    } else if same_chars(c, &vec!['a', 'l', 'p', 'h', 'a']) {
        Command::Symbol('α')
    } else if same_chars(c, &vec!['b', 'e', 't', 'a']) {
        Command::Symbol('β')
    } else if same_chars(c, &vec!['g', 'a', 'm', 'm', 'a']) {
        Command::Symbol('γ')
    } else if same_chars(c, &vec!['d', 'e', 'l', 't', 'a']) {
        Command::Symbol('δ')
    } else if same_chars(c, &vec!['l', 'a', 'm', 'b', 'd', 'a']) {
        Command::Symbol('λ')
    } else if same_chars(c, &vec!['m', 'u']) {
        Command::Symbol('μ')
    } else if same_chars(c, &vec!['s', 'i', 'g', 'm', 'a']) {
        Command::Symbol('σ')
    } else if same_chars(c, &vec!['t', 'h', 'e', 't', 'a']) {
        Command::Symbol('θ')
    } else if same_chars(c, &vec!['l', 'e', 'f', 't']) || same_chars(
        c,
        &vec!['r', 'i', 'g', 'h', 't'],
    ) || same_chars(c, &vec!['c', 'd', 'o', 't']) {
        Command::Silent
    } else if c.len() == 0 {
        Command::Backslash
    } else {
        Command::Verbatim
    }
}

/// The superscript (`sup`) or subscript form of `c`, if it has one.
fn script_form(c: char, sup: bool) -> (r: Option<char>)
    ensures
        r == script_char(c, sup),
{
    if c == '0' {
        Some(if sup { '⁰' } else { '₀' })
    } else if c == '1' {
        Some(if sup { '¹' } else { '₁' })
    } else if c == '2' {
        Some(if sup { '²' } else { '₂' })
    } else if c == '3' {
        Some(if sup { '³' } else { '₃' })
    } else if c == '4' {
        Some(if sup { '⁴' } else { '₄' })
    } else if c == '5' {
        Some(if sup { '⁵' } else { '₅' })
    } else if c == '6' {
        Some(if sup { '⁶' } else { '₆' })
    } else if c == '7' {
        Some(if sup { '⁷' } else { '₇' })
    } else if c == '8' {
        Some(if sup { '⁸' } else { '₈' })
    } else if c == '9' {
        Some(if sup { '⁹' } else { '₉' })
    } else if c == '+' {
        Some(if sup { '⁺' } else { '₊' })
    } else if c == '-' {
        Some(if sup { '⁻' } else { '₋' })
    } else if c == '=' {
        Some(if sup { '⁼' } else { '₌' })
    } else if c == '(' {
        Some(if sup { '⁽' } else { '₍' })
    } else if c == ')' {
        Some(if sup { '⁾' } else { '₎' })
    } else {
        None
    }
}

/// The characters of `s` from `a` up to `b`.
pub fn slice_chars(s: &Vec<char>, a: usize, b: usize) -> (v: Vec<char>)
    requires
        a <= b <= s.len(),
    ensures
        v@ == s@.subrange(a as int, b as int),
{
    let mut v: Vec<char> = Vec::new();
    let mut k = a;
    while k < b
        invariant
            a <= k <= b <= s.len(),
            v@ == s@.subrange(a as int, k as int),
        decreases b - k,
    {
        v.push(s[k]);
        k += 1;
        proof {
            assert(v@ =~= s@.subrange(a as int, k as int));
        }
    }
    v
}

/// The closing brace that matches an opening brace at `open`.
fn find_matching_brace(s: &Vec<char>, open: usize) -> (res: Option<usize>)
    ensures
        match res {
            Some(e) => matching_brace(s@, open as int) == Some(e as int),
            None => matching_brace(s@, open as int) is None,
        },
{
    if open >= s.len() || s[open] != '{' {
        return None;
    }
    let mut depth: usize = 0;
    let mut k = open;
    while k < s.len()
        invariant
            open <= k <= s.len(),
            depth <= k - open,
            matching_brace(s@, open as int) == brace_scan(s@, k as int, depth as nat),
        decreases s.len() - k,
    {
        if s[k] == '{' {
            depth += 1;
        } else if s[k] == '}' {
            depth = if depth == 0 {
                0
            } else {
                depth - 1
            };
            if depth == 0 {
                return Some(k);
            }
        }
        k += 1;
    }
    None
}

/// Whether `w` occurs in `h` at position `p`.
fn occurs_at_exec(h: &Vec<char>, w: &Vec<char>, p: usize) -> (res: bool)
    requires
        p <= h.len(),
        w.len() <= h.len() - p,
    ensures
        res == occurs_at(h@, w@, p as int),
{
    let mut k: usize = 0;
    while k < w.len()
        invariant
            k <= w.len(),
            p + w.len() <= h.len(),
            forall|q: int| 0 <= q < k ==> h@[p + q] == w@[q],
        decreases w.len() - k,
    {
        if h[p + k] != w[k] {
            proof {
                assert(h@.subrange(p as int, p + w.len())[k as int] == h@[p + k]);
            }
            return false;
        }
        k += 1;
    }
    proof {
        assert(h@.subrange(p as int, p + w.len()) =~= w@);
    }
    true
}

/// Whether `w` occurs somewhere in `h`.
fn contains_chars(h: &Vec<char>, w: &Vec<char>) -> (res: bool)
    ensures
        res == contains_seq(h@, w@),
{
    if w.len() == 0 {
        proof {
            assert(h@.subrange(0, 0) =~= w@);
            assert(occurs_at(h@, w@, 0));
        }
        return true;
    }
    let mut p: usize = 0;
    while p <= h.len() && w.len() <= h.len() - p
        invariant
            w.len() > 0,
            forall|q: int| 0 <= q < p ==> !occurs_at(h@, w@, q),
        decreases h.len() + 1 - p,
    {
        if occurs_at_exec(h, w, p) {
            return true;
        }
        p += 1;
    }
    proof {
        assert forall|q: int| !occurs_at(h@, w@, q) by {
            if q >= p {
                assert(q + w@.len() > h@.len());
            }
        }
    }
    false
}

/// `x` with every run of white space made one space and none at either end.
fn collapse_spaces(x: &Vec<char>) -> (out: Vec<char>)
    ensures
        out@ == collapse(x@),
        brace_free(x@) ==> brace_free(out@),
{
    let mut out: Vec<char> = Vec::new();
    let mut gap = false;
    let mut started = false;
    let mut i: usize = 0;
    proof {
        assert(out@ + collapse_from(x@, 0, false, false) =~= collapse(x@));
    }
    while i < x.len()
        invariant
            i <= x.len(),
            out@ + collapse_from(x@, i as int, gap, started) == collapse(x@),
            brace_free(x@) ==> brace_free(out@),
        decreases x.len() - i,
    {
        let ghost before = out@;
        let ghost owed = gap;
        let c = x[i];
        if char_is_space(c) {
            gap = started;
        } else {
            if gap {
                out.push(' ');
            }
            out.push(c);
            gap = false;
            started = true;
            proof {
                let piece = if owed {
                    seq![' ']
                } else {
                    Seq::<char>::empty()
                };
                assert(out@ =~= before + piece + seq![c]);
                assert(before + (piece + seq![c] + collapse_from(x@, i + 1, false, true)) =~= out@
                    + collapse_from(x@, i + 1, false, true));
            }
        }
        i += 1;
    }
    out
}

/// Builds a `String` from its characters.  This calls `FromIterator<char>`
/// for `String` in std, which appends the characters of the iterator in
/// order; that the result's characters are `v`'s is trusted, not proved.
#[verifier::external_body]
pub(crate) fn string_from_chars(v: &Vec<char>) -> (s: String)
    ensures
        s@ == v@,
{
    v.iter().collect()
}

/// Reads a braced group from `*idx` on, after any white space, and renders
/// it; `*idx` moves past the group, or only past the white space where no
/// closed group follows.
fn read_group(s: &Vec<char>, idx: &mut usize) -> (res: Option<Vec<char>>)
    requires
        *old(idx) <= s.len(),
    ensures
        *final(idx) == group_end(s@, *old(idx) as int),
        *final(idx) <= s.len(),
        match res {
            Some(g) => group_text(s@, *old(idx) as int) == Some(g@) && brace_free(g@),
            None => group_text(s@, *old(idx) as int) is None,
        },
    decreases braces(s@), s@.len(), 0nat,
{
    let ghost start = *idx as int;
    let mut j: usize = *idx;
    while j < s.len() && char_is_space(s[j])
        invariant
            start <= j <= s.len(),
            skip_spaces(s@, start) == skip_spaces(s@, j as int),
        decreases s.len() - j,
    {
        j += 1;
    }
    match find_matching_brace(s, j) {
        Some(e) => {
            proof {
                lemma_matching_brace(s@, j as int);
            }
            let inner = slice_chars(s, j + 1, e);
            let g = render_math(&inner);
            *idx = e + 1;
            Some(g)
        },
        None => {
            *idx = j;
            None
        },
    }
}

/// Plain text of the TeX source `s`, with white space collapsed.
pub(crate) fn render_math(s: &Vec<char>) -> (out: Vec<char>)
    ensures
        out@ == render(s@),
        brace_free(out@),
    decreases braces(s@), s@.len(), s@.len() + 3,
{
    let raw = render_chars(s);
    collapse_spaces(&raw)
}

/// A superscript (`sup`) or subscript of text `v`.
fn render_script(v: &Vec<char>, sup: bool) -> (out: Vec<char>)
    ensures
        out@ == script_text(v@, sup),
        brace_free(out@),
    decreases braces(v@), v@.len(), v@.len() + 4,
{
    let mut mapped: Vec<char> = Vec::new();
    let mut all = true;
    let mut i: usize = 0;
    while all && i < v.len()
        invariant
            i <= v.len(),
            all ==> mapped@.len() == i,
            all ==> forall|k: int| 0 <= k < i ==> #[trigger] script_char(v@[k], sup) is Some,
            all ==> forall|k: int| 0 <= k < i ==> mapped@[k] == script_of(#[trigger] v@[k], sup),
            !all ==> !all_scripted(v@, sup),
            brace_free(mapped@),
        decreases v.len() - i,
    {
        match script_form(v[i], sup) {
            Some(m) => {
                mapped.push(m);
            },
            None => {
                all = false;
            },
        }
        i += 1;
    }
    if all && v.len() > 0 {
        proof {
            assert(mapped@ =~= v@.map_values(|c: char| script_of(c, sup)));
        }
        mapped
    } else {
        let mut out: Vec<char> = Vec::new();
        out.push(if sup { '^' } else { '_' });
        out.push('(');
        let mut inner = render_math(v);
        out.append(&mut inner);
        out.push(')');
        proof {
            assert(out@ =~= seq![if sup { '^' } else { '_' }, '('] + render(v@) + seq![')']);
        }
        out
    }
}

/// What the command `cmd`, whose name ends at `k`, writes.
pub open spec fn command_piece(s: Seq<char>, k: int, cmd: Seq<char>) -> Seq<char> {
    match command_of(cmd) {
        Command::Sqrt => match group_text(s, k) {
            Some(g) => seq!['√', '('] + g + seq![')'],
            None => Seq::empty(),
        },
        Command::Frac => seq!['('] + group_or_empty(group_text(s, k)) + seq![')', '/', '(']
            + group_or_empty(group_text(s, group_end(s, k))) + seq![')'],
        Command::Group => group_or_empty(group_text(s, k)),
        Command::Env(open) => if contains_seq(group_or_empty(group_text(s, k)), matrix_word()) {
            seq![if open { '[' } else { ']' }]
        } else {
            Seq::empty()
        },
        Command::Symbol(x) => seq![x],
        Command::Silent => Seq::empty(),
        Command::Verbatim => cmd,
        Command::Backslash => seq!['\\'],
    }
}

/// Where reading resumes after the command `cmd`, whose name ends at `k`.
pub open spec fn command_next(s: Seq<char>, k: int, cmd: Seq<char>) -> int {
    match command_of(cmd) {
        Command::Sqrt | Command::Group | Command::Env(_) => group_end(s, k),
        Command::Frac => group_end(s, group_end(s, k)),
        _ => k,
    }
}

/// A backslash command renders as what it writes, then the rest.
pub proof fn lemma_command_step(s: Seq<char>, i: int)
    requires
        0 <= i < s.len(),
        s[i] == '\\',
        !(i + 1 < s.len() && s[i + 1] == '\\'),
    ensures
        ({
            let k = letters_end(s, i + 1);
            let cmd = s.subrange(i + 1, k);
            render_from(s, i) == command_piece(s, k, cmd) + render_from(s, command_next(s, k, cmd))
        }),
{
    let k = letters_end(s, i + 1);
    let cmd = s.subrange(i + 1, k);
    let rest = render_from(s, command_next(s, k, cmd));
    match command_of(cmd) {
        Command::Frac => {
            let k2 = group_end(s, k);
            assert(seq!['('] + group_or_empty(group_text(s, k)) + seq![')', '/', '(']
                + group_or_empty(group_text(s, k2)) + seq![')'] + rest =~= command_piece(s, k, cmd)
                + rest);
        },
        _ => {},
    }
}

/// Renders the backslash command at `*idx`, with the groups it reads.
#[verifier::rlimit(60)]
fn render_command(s: &Vec<char>, idx: &mut usize, out: &mut Vec<char>)
    requires
        *old(idx) < s.len(),
        s@[*old(idx) as int] == '\\',
        !(*old(idx) + 1 < s.len() && s@[*old(idx) + 1] == '\\'),
        brace_free(old(out)@),
    ensures
        *old(idx) < *final(idx) <= s.len(),
        final(out)@ + render_from(s@, *final(idx) as int) == old(out)@ + render_from(s@, *old(idx) as int),
        brace_free(final(out)@),
    decreases braces(s@), s@.len(), 1nat,
{
    let ghost at = *idx as int;
    let ghost before = out@;
    let start = *idx + 1;
    let mut k = start;
    while k < s.len() && (('A' <= s[k] && s[k] <= 'Z') || ('a' <= s[k] && s[k] <= 'z'))
        invariant
            start <= k <= s.len(),
            letters_end(s@, start as int) == letters_end(s@, k as int),
        decreases s.len() - k,
    {
        k += 1;
    }
    let cmd = slice_chars(s, start, k);
    let ghost name = cmd@;
    proof {
        lemma_letters_end(s@, start as int);
        lemma_group_end(s@, k as int);
        lemma_group_end(s@, group_end(s@, k as int));
        assert(letters_end(s@, k as int) == k);
        lemma_command_step(s@, at);
    }
    *idx = k;
    let kind = classify(&cmd);
    match kind {
        Command::Sqrt => {
            let g = read_group(s, idx);
            match g {
                Some(mut g) => {
                    let ghost gv = g@;
                    out.push('√');
                    out.push('(');
                    out.append(&mut g);
                    out.push(')');
                    proof {
                        assert(out@ =~= before + (seq!['√', '('] + gv + seq![')']));
                    }
                },
                None => {
                    proof {
                        assert(out@ =~= before + Seq::<char>::empty());
                    }
                },
            }
        },
        Command::Frac => {
            let num = read_group(s, idx);
            let mut num = match num {
                Some(g) => g,
                None => Vec::new(),
            };
            let ghost nv = num@;
            let den = read_group(s, idx);
            let mut den = match den {
                Some(g) => g,
                None => Vec::new(),
            };
            let ghost dv = den@;
            out.push('(');
            out.append(&mut num);
            out.push(')');
            out.push('/');
            out.push('(');
            out.append(&mut den);
            out.push(')');
            proof {
                assert(out@ =~= before + (seq!['('] + nv + seq![')', '/', '('] + dv + seq![')']));
            }
        },
        Command::Group => {
            let g = read_group(s, idx);
            match g {
                Some(mut g) => {
                    let ghost gv = g@;
                    out.append(&mut g);
                    proof {
                        assert(out@ =~= before + gv);
                    }
                },
                None => {
                    proof {
                        assert(out@ =~= before + Seq::<char>::empty());
                    }
                },
            }
        },
        Command::Env(open) => {
            let g = read_group(s, idx);
            let env = match g {
                Some(g) => g,
                None => Vec::new(),
            };
            if contains_chars(&env, &vec!['m', 'a', 't', 'r', 'i', 'x']) {
                out.push(if open { '[' } else { ']' });
                proof {
                    assert(out@ =~= before + seq![if open { '[' } else { ']' }]);
                }
            } else {
                proof {
                    assert(out@ =~= before + Seq::<char>::empty());
                }
            }
        },
        Command::Symbol(x) => {
            out.push(x);
            proof {
                assert(out@ =~= before + seq![x]);
            }
        },
        Command::Silent => {
            proof {
                assert(out@ =~= before + Seq::<char>::empty());
            }
        },
        Command::Verbatim => {
            let mut name_chars = cmd;
            out.append(&mut name_chars);
        },
        Command::Backslash => {
            out.push('\\');
            proof {
                assert(out@ =~= before + seq!['\\']);
            }
        },
    }
    proof {
        let rest = render_from(s@, *idx as int);
        assert(out@ == before + command_piece(s@, k as int, name));
        assert(*idx == command_next(s@, k as int, name));
        assert(out@ + rest =~= before + (command_piece(s@, k as int, name) + rest));
    }
}

/// Renders the superscript or subscript whose marker is at `*idx`.
fn render_script_step(s: &Vec<char>, idx: &mut usize, out: &mut Vec<char>)
    requires
        *old(idx) < s.len(),
        s@[*old(idx) as int] == '^' || s@[*old(idx) as int] == '_',
        brace_free(old(out)@),
    ensures
        *old(idx) < *final(idx) <= s.len(),
        final(out)@ + render_from(s@, *final(idx) as int) == old(out)@ + render_from(s@, *old(idx) as int),
        brace_free(final(out)@),
    decreases braces(s@), s@.len(), 1nat,
{
    let ghost at = *idx as int;
    let ghost before = out@;
    let sup = s[*idx] == '^';
    let j = *idx + 1;
    *idx = j;
    proof {
        lemma_group_end(s@, j as int);
    }
    let script: Vec<char> = if j < s.len() && s[j] == '{' {
        let g = read_group(s, idx);
        match g {
            Some(g) => g,
            None => Vec::new(),
        }
    } else if j < s.len() {
        *idx = j + 1;
        let mut v: Vec<char> = Vec::new();
        v.push(s[j]);
        v
    } else {
        Vec::new()
    };
    proof {
        if j < s.len() && s@[j as int] == '{' {
            lemma_brace_free_braces(script@);
            lemma_brace_counts(s@, j as int);
        } else if j < s.len() {
            assert(script@.drop_last() =~= Seq::<char>::empty());
            assert(braces(Seq::<char>::empty()) == 0);
            if is_brace(s@[j as int]) {
                lemma_brace_counts(s@, j as int);
            }
        }
        assert(braces(Seq::<char>::empty()) == 0);
        assert(smaller(script@, s@));
    }
    let mut t = render_script(&script, sup);
    out.append(&mut t);
    proof {
        let rest = render_from(s@, *idx as int);
        assert(out@ + rest =~= before + (script_text(script@, sup) + rest));
    }
}

/// Plain text of `s` before white space is collapsed.
fn render_chars(s: &Vec<char>) -> (out: Vec<char>)
    ensures
        out@ == render_from(s@, 0),
        brace_free(out@),
    decreases braces(s@), s@.len(), s@.len() + 2,
{
    let mut out: Vec<char> = Vec::new();
    let mut idx: usize = 0;
    proof {
        assert(out@ + render_from(s@, 0) =~= render_from(s@, 0));
    }
    while idx < s.len()
        invariant
            idx <= s.len(),
            out@ + render_from(s@, idx as int) == render_from(s@, 0),
            brace_free(out@),
        decreases s.len() - idx,
    {
        let ghost before = out@;
        let ghost at = idx as int;
        let c = s[idx];
        if c == '\\' && !(idx + 1 < s.len() && s[idx + 1] == '\\') {
            render_command(s, &mut idx, &mut out);
        } else if c == '^' || c == '_' {
            render_script_step(s, &mut idx, &mut out);
        } else {
            if c == '\\' {
                out.push(';');
                out.push(' ');
                idx += 2;
            } else if c == '{' || c == '}' {
                idx += 1;
            } else if c == '&' {
                out.push(' ');
                idx += 1;
            } else {
                out.push(c);
                idx += 1;
            }
            proof {
                let rest = render_from(s@, idx as int);
                assert(out@ + rest =~= before + (out@.subrange(before.len() as int, out@.len() as int)
                    + rest));
            }
        }
    }
    proof {
        assert(out@ + render_from(s@, idx as int) =~= out@);
    }
    out
}

/// Plain text of the TeX source `input`: commands become the symbols or
/// words they stand for, fractions and roots are written with brackets,
/// scripts with script digits where they can, and white space is collapsed.
pub fn render_plain_math(input: &str) -> (out: String)
    ensures
        out@ == render(input@),
        brace_free(out@),
{
    let s = chars_of(input);
    let v = render_math(&s);
    string_from_chars(&v)
}

} // verus!
