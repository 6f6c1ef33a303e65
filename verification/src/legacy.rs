//! The fixed-column text-bulletin adapter: anchor lines located by prefix,
//! containment or pattern, a report date taken once from a single anchor
//! line, and section-specific label/value line patterns.

use vstd::prelude::*;

use crate::dates::Date;
use crate::package::{USDADataPackage, USDADataPackageSection};
use crate::text::{
    all_digits, dec_digits, dec_digits_pad, dec_value, is_ascii_letter, is_digit, is_digit_exec,
    lemma_dec_value_bound,
    lemma_pow10_mono, lemma_pow10_pos, lower_char, lower_char_exec, lower_seq, matches_at,
    parse_u32_range, pow10, push_u64, push_u64_pad, spec_parse_u32, str_eq, string_from_range,
};

verus! {

/// `p` is a prefix of `l`.
pub open spec fn spec_starts_with(l: Seq<char>, p: Seq<char>) -> bool {
    p.len() <= l.len() && l.subrange(0, p.len() as int) == p
}

/// `p` occurs somewhere in `l`.
pub open spec fn spec_contains(l: Seq<char>, p: Seq<char>) -> bool {
    exists|k: int| 0 <= k && k + p.len() <= l.len() && #[trigger] l.subrange(k, k + p.len()) == p
}

/// Index of the first newline at or after `i`, or the length when none.
pub open spec fn first_newline(s: Seq<char>, i: int) -> int
    decreases s.len() - i,
{
    if i < 0 || i >= s.len() {
        s.len() as int
    } else if s[i] == '\n' {
        i
    } else {
        first_newline(s, i + 1)
    }
}

/// The lines of a text, split on newline characters; a trailing newline
/// produces no final empty line.
pub open spec fn spec_split_lines(s: Seq<char>) -> Seq<Seq<char>>
    decreases s.len(),
{
    if s.len() == 0 {
        Seq::empty()
    } else {
        let k = first_newline(s, 0);
        if k < 0 || k >= s.len() {
            seq![s]
        } else {
            seq![s.subrange(0, k)] + spec_split_lines(s.subrange(k + 1, s.len() as int))
        }
    }
}

/// The views of a vector of lines.
pub open spec fn lines_view(lines: Seq<Vec<char>>) -> Seq<Seq<char>> {
    Seq::new(lines.len(), |i: int| lines[i]@)
}

pub proof fn lemma_first_newline_bounds(s: Seq<char>, i: int)
    requires
        0 <= i <= s.len(),
    ensures
        i <= first_newline(s, i) <= s.len(),
        first_newline(s, i) < s.len() ==> s[first_newline(s, i)] == '\n',
        forall|j: int| i <= j < first_newline(s, i) ==> s[j] != '\n',
    decreases s.len() - i,
{
    if i < s.len() && s[i] != '\n' {
        lemma_first_newline_bounds(s, i + 1);
    }
}

fn split_lines(text: &str) -> (lines: Vec<Vec<char>>)
    ensures
        lines_view(lines@) == spec_split_lines(text@),
{
    let chars = crate::text::chars_of_str(text);
    let n = chars.len();
    let mut lines: Vec<Vec<char>> = Vec::new();
    let mut pos: usize = 0;
    proof {
        assert(text@.subrange(0, n as int) =~= text@);
        assert(lines_view(lines@) =~= Seq::<Seq<char>>::empty());
        assert(spec_split_lines(text@) =~= lines_view(lines@) + spec_split_lines(
            text@.subrange(0, n as int),
        ));
    }
    while pos < n
        invariant
            n == chars@.len(),
            chars@ == text@,
            pos <= n,
            spec_split_lines(text@) == lines_view(lines@) + spec_split_lines(
                text@.subrange(pos as int, n as int),
            ),
        decreases n - pos,
    {
        let mut line_end = pos;
        while line_end < n && chars[line_end] != '\n'
            invariant
                pos <= line_end <= n == chars@.len(),
                chars@ == text@,
                forall|j: int| pos <= j < line_end ==> text@[j] != '\n',
            decreases n - line_end,
        {
            line_end += 1;
        }
        let mut line: Vec<char> = Vec::new();
        let mut i = pos;
        while i < line_end
            invariant
                pos <= i <= line_end <= chars@.len(),
                chars@ == text@,
                line@ == text@.subrange(pos as int, i as int),
            decreases line_end - i,
        {
            line.push(chars[i]);
            proof {
                assert(line@ =~= text@.subrange(pos as int, i + 1));
            }
            i += 1;
        }
        proof {
            let rest = text@.subrange(pos as int, n as int);
            let k = first_newline(rest, 0);
            lemma_first_newline_bounds(rest, 0);
            assert forall|j: int| 0 <= j < line_end - pos implies rest[j] != '\n' by {
                assert(rest[j] == text@[pos + j]);
            }
            if line_end < n {
                assert(rest[line_end - pos] == text@[line_end as int]);
                assert(rest[line_end - pos] == '\n');
                assert(k == line_end - pos) by {
                    if k < line_end - pos {
                        assert(rest[k] != '\n');
                    }
                    if k > line_end - pos {
                        assert(rest[line_end - pos] != '\n');
                    }
                }
                assert(rest.subrange(0, k) =~= text@.subrange(pos as int, line_end as int));
                assert(rest.subrange(k + 1, rest.len() as int) =~= text@.subrange(
                    line_end + 1,
                    n as int,
                ));
                assert(spec_split_lines(rest) == seq![
                    text@.subrange(pos as int, line_end as int),
                ] + spec_split_lines(text@.subrange(line_end + 1, n as int)));
            } else {
                assert(k == rest.len()) by {
                    if k < rest.len() {
                        assert(rest[k] != '\n');
                    }
                }
                assert(rest =~= text@.subrange(pos as int, line_end as int));
                assert(spec_split_lines(rest) == seq![
                    text@.subrange(pos as int, line_end as int),
                ]);
            }
            assert(line@ == text@.subrange(pos as int, line_end as int));
        }
        let ghost old_lines = lines@;
        lines.push(line);
        proof {
            assert(lines_view(lines@) =~= lines_view(old_lines).push(
                text@.subrange(pos as int, line_end as int),
            ));
            if line_end < n {
                assert(spec_split_lines(text@) =~= lines_view(lines@) + spec_split_lines(
                    text@.subrange(line_end + 1, n as int),
                ));
            } else {
                assert(spec_split_lines(text@.subrange(n as int, n as int)) =~= Seq::<
                    Seq<char>,
                >::empty());
                assert(spec_split_lines(text@) =~= lines_view(lines@) + spec_split_lines(
                    text@.subrange(n as int, n as int),
                ));
            }
        }
        if line_end < n {
            pos = line_end + 1;
        } else {
            pos = n;
        }
    }
    proof {
        assert(spec_split_lines(text@.subrange(n as int, n as int)) =~= Seq::<Seq<char>>::empty());
        assert(spec_split_lines(text@) =~= lines_view(lines@));
    }
    lines
}

/// Does this line start with the pattern?
fn line_starts_with(line: &Vec<char>, pattern: &str) -> (r: bool)
    ensures
        r == spec_starts_with(line@, pattern@),
{
    matches_at(line.as_slice(), 0, pattern)
}

/// Does this line contain the pattern anywhere?
fn line_contains(line: &Vec<char>, pattern: &str) -> (r: bool)
    ensures
        r == spec_contains(line@, pattern@),
{
    let n = line.len();
    let mut k: usize = 0;
    while k < n
        invariant
            n == line@.len(),
            k <= n,
            forall|k2: int|
                0 <= k2 < k ==> !(k2 + pattern@.len() <= line@.len() && #[trigger] line@.subrange(
                    k2,
                    k2 + pattern@.len(),
                ) == pattern@),
        decreases n - k,
    {
        if matches_at(line.as_slice(), k, pattern) {
            return true;
        }
        k += 1;
    }
    if matches_at(line.as_slice(), n, pattern) {
        return true;
    }
    proof {
        if spec_contains(line@, pattern@) {
            let k2 = choose|k2: int|
                0 <= k2 && k2 + pattern@.len() <= line@.len() && #[trigger] line@.subrange(
                    k2,
                    k2 + pattern@.len(),
                ) == pattern@;
            assert(false);
        }
    }
    false
}

/// Zero-indexed number of the first line that starts with the pattern.
pub fn find_line_starts_with(text_array: &Vec<Vec<char>>, pattern: &str) -> (r: Option<usize>)
    ensures
        match r {
            Some(i) => i < text_array@.len() && spec_starts_with(text_array@[i as int]@, pattern@)
                && forall|j: int|
                0 <= j < i ==> !spec_starts_with((#[trigger] text_array@[j])@, pattern@),
            None => forall|j: int|
                0 <= j < text_array@.len() ==> !spec_starts_with(
                    (#[trigger] text_array@[j])@,
                    pattern@,
                ),
        },
{
    let mut i: usize = 0;
    while i < text_array.len()
        invariant
            i <= text_array@.len(),
            forall|j: int| 0 <= j < i ==> !spec_starts_with((#[trigger] text_array@[j])@, pattern@),
        decreases text_array@.len() - i,
    {
        if line_starts_with(&text_array[i], pattern) {
            return Some(i);
        }
        i += 1;
    }
    None
}

/// Zero-indexed number of the first line that contains the pattern.
pub fn find_line_contains(text_array: &Vec<Vec<char>>, pattern: &str) -> (r: Option<usize>)
    ensures
        match r {
            Some(i) => i < text_array@.len() && spec_contains(text_array@[i as int]@, pattern@)
                && forall|j: int|
                0 <= j < i ==> !spec_contains((#[trigger] text_array@[j])@, pattern@),
            None => forall|j: int|
                0 <= j < text_array@.len() ==> !spec_contains(
                    (#[trigger] text_array@[j])@,
                    pattern@,
                ),
        },
{
    let mut i: usize = 0;
    while i < text_array.len()
        invariant
            i <= text_array@.len(),
            forall|j: int| 0 <= j < i ==> !spec_contains((#[trigger] text_array@[j])@, pattern@),
        decreases text_array@.len() - i,
    {
        if line_contains(&text_array[i], pattern) {
            return Some(i);
        }
        i += 1;
    }
    None
}

/// Length of the maximal digit run starting at `i`.
pub open spec fn digit_run(s: Seq<char>, i: int) -> int
    decreases s.len() - i,
{
    if 0 <= i < s.len() && is_digit(s[i]) {
        1 + digit_run(s, i + 1)
    } else {
        0
    }
}

fn digit_run_exec(chars: &[char], i: usize) -> (r: usize)
    requires
        i <= chars@.len(),
    ensures
        r == digit_run(chars@, i as int),
        i + r <= chars@.len(),
    decreases chars@.len() - i,
{
    let n = chars.len();
    let mut j = i;
    while j < n && '0' <= chars[j] && chars[j] <= '9'
        invariant
            i <= j <= n == chars@.len(),
            digit_run(chars@, i as int) == (j - i) + digit_run(chars@, j as int),
        decreases n - j,
    {
        j += 1;
    }
    proof {
        assert(digit_run(chars@, j as int) == 0);
    }
    j - i
}

/// Every position of a digit run holds a digit through to the run's end.
pub proof fn lemma_digit_run_bounds(s: Seq<char>, i: int)
    requires
        0 <= i <= s.len(),
    ensures
        i + digit_run(s, i) <= s.len(),
        forall|k: int| i <= k < i + digit_run(s, i) ==> is_digit(#[trigger] s[k]),
    decreases s.len() - i,
{
    if i < s.len() && is_digit(s[i]) {
        lemma_digit_run_bounds(s, i + 1);
    }
}

/// A month/day/year group stands at `i`: a digit run, a slash, a digit run,
/// a slash, and a digit run of at least `ymin` digits.
pub open spec fn mdy_struct(s: Seq<char>, i: int, year_exact4: bool) -> bool {
    let a = digit_run(s, i);
    let b = digit_run(s, i + a + 1);
    let c = digit_run(s, i + a + b + 2);
    &&& 0 <= i <= s.len()
    &&& a >= 1
    &&& i + a < s.len() && s[i + a] == '/'
    &&& b >= 1
    &&& i + a + 1 + b < s.len() && s[i + a + 1 + b] == '/'
    &&& c >= if year_exact4 {
        4int
    } else {
        1int
    }
}

/// The numbers of the group at `i`: month run, day run, and the year run
/// (its first four digits when `year_exact4` is set, the whole run
/// otherwise). `None` when a run is too long to denote a number.
pub open spec fn mdy_values(s: Seq<char>, i: int, year_exact4: bool) -> Option<(u32, u32, u32)> {
    let a = digit_run(s, i);
    let b = digit_run(s, i + a + 1);
    let c = digit_run(s, i + a + b + 2);
    let ys = i + a + b + 2;
    let m = spec_parse_u32(s.subrange(i, i + a));
    let d = spec_parse_u32(s.subrange(i + a + 1, i + a + 1 + b));
    let y = if year_exact4 {
        spec_parse_u32(s.subrange(ys, ys + 4))
    } else {
        spec_parse_u32(s.subrange(ys, ys + c))
    };
    match (m, d, y) {
        (Some(mv), Some(dv), Some(yv)) => Some((mv, dv, yv)),
        _ => None,
    }
}

/// Find the leftmost month/day/year group in the line and read its numbers.
/// `None` when no group stands anywhere, or the leftmost group's runs are
/// too long to denote numbers.
pub fn scan_mdy(chars: &[char], year_exact4: bool) -> (r: Option<(u32, u32, u32)>)
    ensures
        match r {
            Some(t) => exists|i: int|
                #![trigger mdy_struct(chars@, i, year_exact4)]
                mdy_struct(chars@, i, year_exact4) && mdy_values(
                    chars@,
                    i,
                    year_exact4,
                ) == Some(t) && forall|j: int|
                    0 <= j < i ==> !#[trigger] mdy_struct(chars@, j, year_exact4),
            None => (forall|i: int|
                0 <= i < chars@.len() ==> !#[trigger] mdy_struct(chars@, i, year_exact4)) || exists|i: int|
                #![trigger mdy_struct(chars@, i, year_exact4)]
                (mdy_struct(chars@, i, year_exact4) && mdy_values(
                    chars@,
                    i,
                    year_exact4,
                ) is None && forall|j: int|
                    0 <= j < i ==> !#[trigger] mdy_struct(chars@, j, year_exact4)),
        },
{

    let n = chars.len();
    let mut i: usize = 0;
    while i < n
        invariant
            n == chars@.len(),
            i <= n,
            forall|j: int| 0 <= j < i ==> !mdy_struct(chars@, j, year_exact4),
        decreases n - i,
    {
        let a = digit_run_exec(chars, i);
        if a >= 1 && i + a < n && chars[i + a] == '/' {
            let b = digit_run_exec(chars, i + a + 1);
            if b >= 1 && i + a + 1 + b < n && chars[i + a + 1 + b] == '/' {
                let ys = i + a + b + 2;
                let c = digit_run_exec(chars, ys);
                let ylen: usize = if year_exact4 {
                    4
                } else {
                    c
                };
                if (year_exact4 && c >= 4) || (!year_exact4 && c >= 1) {
                    proof {
                        assert(mdy_struct(chars@, i as int, year_exact4));
                    }
                    let m = parse_u32_range(chars, i, i + a);
                    let d = parse_u32_range(chars, i + a + 1, i + a + 1 + b);
                    let y = parse_u32_range(chars, ys, ys + ylen);
                    match (m, d, y) {
                        (Some(mv), Some(dv), Some(yv)) => {
                            return Some((mv, dv, yv));
                        },
                        _ => {
                            return None;
                        },
                    }
                }
            }
        }
        proof {
            assert(!mdy_struct(chars@, i as int, year_exact4));
        }
        i += 1;
    }
    None
}

/// Character classes of the section label patterns.
#[derive(Clone, Copy, PartialEq, Eq, Structural)]
enum LabelClass {
    Letters,
    LettersDigitsSlashDash,
    LettersDigitsDash,
}

fn is_alpha(c: char) -> (r: bool) {
    ('A' <= c && c <= 'Z') || ('a' <= c && c <= 'z')
}

fn class_char(c: char, cl: LabelClass) -> (r: bool) {
    match cl {
        LabelClass::Letters => is_alpha(c),
        LabelClass::LettersDigitsSlashDash => is_alpha(c) || ('0' <= c && c <= '9') || c == '/'
            || c == '-',
        LabelClass::LettersDigitsDash => is_alpha(c) || ('0' <= c && c <= '9') || c == '-',
    }
}

/// Is the space-delimited word at `g` made only of digits and commas?
fn word_is_value(line: &[char], g: usize) -> (r: bool)
    requires
        g < line@.len(),
{
    let n = line.len();
    let mut j = g;
    let mut all_value = true;
    while j < n && line[j] != ' '
        invariant
            g <= j <= n == line@.len(),
        decreases n - j,
    {
        let c = line[j];
        if !(is_digit_exec(c) || c == ',') {
            all_value = false;
        }
        j += 1;
    }
    all_value && j > g
}

/// All characters are digits or commas.
pub open spec fn all_value_chars(s: Seq<char>) -> bool {
    forall|i: int| 0 <= i < s.len() ==> is_digit(#[trigger] s[i]) || s[i] == ','
}

/// Match one label/value line: a label of class words separated by short
/// space gaps, optional asterisks, at least one space, then a run of digits
/// and commas. The label never swallows a pure digit-and-comma word.
fn match_label_value(line: &[char], cl: LabelClass, max_gap: usize) -> (r: Option<
    (String, String),
>)
    requires
        max_gap >= 1,
    ensures
        match r {
            Some(lv) => lv.0@.len() >= 1 && lv.1@.len() >= 1 && all_value_chars(lv.1@),
            None => true,
        },
{
    let n = line.len();
    // first class character
    let mut st: usize = 0;
    while st < n && !class_char(line[st], cl)
        invariant
            st <= n == line@.len(),
        decreases n - st,
    {
        st += 1;
    }
    if st >= n {
        return None;
    }
    // label words
    let mut j = st;
    let mut label_end = st;
    loop
        invariant
            st <= j <= n == line@.len(),
            st <= label_end <= n,
        decreases n - j,
    {
        let ghost j0 = j;
        while j < n && class_char(line[j], cl)
            invariant
                st <= j <= n == line@.len(),
                j0 <= j,
            decreases n - j,
        {
            j += 1;
        }
        label_end = j;
        let gap_start = j;
        let mut g = j;
        while g < n && line[g] == ' '
            invariant
                j <= g <= n == line@.len(),
            decreases n - g,
        {
            g += 1;
        }
        if g > gap_start && g - gap_start <= max_gap && g < n && class_char(line[g], cl)
            && !word_is_value(line, g) {
            j = g;
        } else {
            break;
        }
    }
    if label_end == st {
        return None;
    }
    // optional asterisks, then at least one space
    let mut v = label_end;
    while v < n && line[v] == '*'
        invariant
            label_end <= v <= n == line@.len(),
        decreases n - v,
    {
        v += 1;
    }
    let sp0 = v;
    while v < n && line[v] == ' '
        invariant
            sp0 <= v <= n == line@.len(),
        decreases n - v,
    {
        v += 1;
    }
    if v == sp0 {
        return None;
    }
    // the value run
    let vs = v;
    while v < n && (is_digit_exec(line[v]) || line[v] == ',')
        invariant
            vs <= v <= n == line@.len(),
            forall|i: int| vs <= i < v ==> is_digit(#[trigger] line@[i]) || line@[i] == ',',
        decreases n - v,
    {
        v += 1;
    }
    if v == vs {
        return None;
    }
    let label = string_from_range(line, st, label_end);
    let value = string_from_range(line, vs, v);
    proof {
        assert(label@.len() >= 1);
        assert(value@.len() >= 1);
        assert forall|i: int| 0 <= i < value@.len() implies is_digit(#[trigger] value@[i])
            || value@[i] == ',' by {
            assert(value@[i] == line@[vs + i]);
        }
    }
    Some((label, value))
}

/// Index of the first letter at or after `i`, or the length.
pub open spec fn first_alpha(s: Seq<char>, i: int) -> int
    decreases s.len() - i,
{
    if i < 0 || i >= s.len() {
        s.len() as int
    } else if is_ascii_letter(s[i]) {
        i
    } else {
        first_alpha(s, i + 1)
    }
}

proof fn lemma_first_alpha_is(s: Seq<char>, from: int, i: int)
    requires
        0 <= from <= i < s.len(),
        is_ascii_letter(s[i]),
        forall|j: int| from <= j < i ==> !is_ascii_letter(#[trigger] s[j]),
    ensures
        first_alpha(s, from) == i,
    decreases i - from,
{
    if from < i {
        lemma_first_alpha_is(s, from + 1, i);
    }
}

proof fn lemma_first_alpha_none(s: Seq<char>, from: int)
    requires
        0 <= from,
        forall|j: int| from <= j < s.len() ==> !is_ascii_letter(#[trigger] s[j]),
    ensures
        first_alpha(s, from) == s.len(),
    decreases s.len() - from,
{
    if from < s.len() {
        lemma_first_alpha_none(s, from + 1);
    }
}

/// A cutout value field stands at `p`: digits, a point, and exactly two
/// fraction digits.
pub open spec fn primal_num_at(l: Seq<char>, p: int) -> bool {
    let a = digit_run(l, p);
    &&& 0 <= p <= l.len()
    &&& a >= 1
    &&& p + a < l.len() && l[p + a] == '.'
    &&& digit_run(l, p + a + 1) == 2
}

pub open spec fn primal_num_end(l: Seq<char>, p: int) -> int {
    p + digit_run(l, p) + 3
}

/// The field's text, verbatim.
pub open spec fn primal_num_text(l: Seq<char>, p: int) -> Seq<char> {
    l.subrange(p, primal_num_end(l, p))
}

/// `k` cutout fields follow `p`, each after at least one space.
pub open spec fn primal_fields_at(l: Seq<char>, p: int, k: int) -> bool
    decreases k,
{
    if k <= 0 {
        true
    } else {
        space_run(l, p) >= 1 && primal_num_at(l, p + space_run(l, p)) && primal_fields_at(
            l,
            primal_num_end(l, p + space_run(l, p)),
            k - 1,
        )
    }
}

/// Start of field `k` (zero-based) of the run beginning at `p`.
pub open spec fn primal_field_start(l: Seq<char>, p: int, k: int) -> int
    decreases k,
{
    let q = p + space_run(l, p);
    if k <= 0 {
        q
    } else {
        primal_field_start(l, primal_num_end(l, q), k - 1)
    }
}

/// The cutout-value line matches: a letters label (from the first letter),
/// then six decimal fields.
pub open spec fn primal_line_at(l: Seq<char>) -> bool {
    let st = first_alpha(l, 0);
    st < l.len() && primal_fields_at(l, region_end(l, st), 6)
}

/// The line's label, verbatim.
pub open spec fn primal_label(l: Seq<char>) -> Seq<char> {
    l.subrange(first_alpha(l, 0), region_end(l, first_alpha(l, 0)))
}

/// The text of the line's field `k`.
pub open spec fn primal_value(l: Seq<char>, k: int) -> Seq<char> {
    primal_num_text(l, primal_field_start(l, region_end(l, first_alpha(l, 0)), k))
}

/// One unfolding of the field chain.
proof fn lemma_primal_fields_unfold(l: Seq<char>, p: int, k: int)
    requires
        k >= 1,
    ensures
        primal_fields_at(l, p, k) == (space_run(l, p) >= 1 && primal_num_at(
            l,
            p + space_run(l, p),
        ) && primal_fields_at(l, primal_num_end(l, p + space_run(l, p)), k - 1)),
{
}

/// One unfolding of the field-start chain.
proof fn lemma_primal_start_unfold(l: Seq<char>, p: int, k: int)
    requires
        k >= 1,
    ensures
        primal_field_start(l, p, k) == primal_field_start(
            l,
            primal_num_end(l, p + space_run(l, p)),
            k - 1,
        ),
{
}

/// One cutout field after its spaces: its verbatim text and its end.
fn primal_field(line: &[char], p: usize) -> (r: Option<(String, usize)>)
    requires
        p <= line@.len(),
    ensures
        r is Some <==> (space_run(line@, p as int) >= 1 && primal_num_at(
            line@,
            p + space_run(line@, p as int),
        )),
        match r {
            Some(t) => t.0@ == primal_num_text(line@, p + space_run(line@, p as int)) && t.1
                as int == primal_num_end(line@, p + space_run(line@, p as int)) && p < t.1
                <= line@.len(),
            None => true,
        },
{
    let n = line.len();
    let sr = space_run_exec(line, p);
    if sr == 0 {
        return None;
    }
    let q = p + sr;
    let a = digit_run_exec(line, q);
    if a == 0 {
        return None;
    }
    if q + a >= n || line[q + a] != '.' {
        return None;
    }
    let f = digit_run_exec(line, q + a + 1);
    if f != 2 {
        return None;
    }
    proof {
        lemma_digit_run_bounds(line@, (q + a + 1) as int);
        assert(primal_num_at(line@, q as int));
        assert(primal_num_end(line@, q as int) == q + a + 3);
    }
    let value = string_from_range(line, q, q + a + 3);
    proof {
        assert(value@ =~= primal_num_text(line@, q as int));
    }
    Some((value, q + a + 3))
}

/// Match one cutout-value line: a letters label, then exactly six decimal
/// fields of the form digits, point, two digits, each after spaces. The
/// values are returned verbatim, in field order.
fn match_primal(line: &[char]) -> (r: Option<(String, Vec<String>)>)
    ensures
        r is Some <==> primal_line_at(line@),
        match r {
            Some(lv) => lv.0@ == primal_label(line@) && lv.0@.len() >= 1 && lv.1@.len() == 6
                && forall|k: int| 0 <= k < 6 ==> (#[trigger] lv.1@[k])@ == primal_value(line@, k),
            None => true,
        },
{
    let n = line.len();
    let mut st: usize = 0;
    while st < n && !(('A' <= line[st] && line[st] <= 'Z') || ('a' <= line[st] && line[st]
        <= 'z'))
        invariant
            st <= n == line@.len(),
            forall|j: int| 0 <= j < st ==> !is_ascii_letter(#[trigger] line@[j]),
        decreases n - st,
    {
        st += 1;
    }
    if st >= n {
        proof {
            lemma_first_alpha_none(line@, 0);
        }
        return None;
    }
    proof {
        lemma_first_alpha_is(line@, 0, st as int);
    }
    let label_end = region_end_exec(line, st);
    let ghost re = label_end as int;
    let label = string_from_range(line, st, label_end);
    proof {
        assert(label@ =~= primal_label(line@));
        lemma_alpha_run_nonneg(line@, st + 1);
        assert(label@.len() >= 1);
    }
    let f0 = match primal_field(line, label_end) {
        Some(t) => t,
        None => {
            proof {
                lemma_primal_fields_unfold(line@, re, 6);
                assert(!primal_fields_at(line@, re, 6));
            }
            return None;
        },
    };
    let f1 = match primal_field(line, f0.1) {
        Some(t) => t,
        None => {
            proof {
                lemma_primal_fields_unfold(line@, re, 6);
                lemma_primal_fields_unfold(line@, f0.1 as int, 5);
                assert(!primal_fields_at(line@, f0.1 as int, 5));
                assert(!primal_fields_at(line@, re, 6));
            }
            return None;
        },
    };
    let f2 = match primal_field(line, f1.1) {
        Some(t) => t,
        None => {
            proof {
                lemma_primal_fields_unfold(line@, re, 6);
                lemma_primal_fields_unfold(line@, f0.1 as int, 5);
                lemma_primal_fields_unfold(line@, f1.1 as int, 4);
                assert(!primal_fields_at(line@, f1.1 as int, 4));
                assert(!primal_fields_at(line@, f0.1 as int, 5));
                assert(!primal_fields_at(line@, re, 6));
            }
            return None;
        },
    };
    let f3 = match primal_field(line, f2.1) {
        Some(t) => t,
        None => {
            proof {
                lemma_primal_fields_unfold(line@, re, 6);
                lemma_primal_fields_unfold(line@, f0.1 as int, 5);
                lemma_primal_fields_unfold(line@, f1.1 as int, 4);
                lemma_primal_fields_unfold(line@, f2.1 as int, 3);
                assert(!primal_fields_at(line@, f2.1 as int, 3));
                assert(!primal_fields_at(line@, f1.1 as int, 4));
                assert(!primal_fields_at(line@, f0.1 as int, 5));
                assert(!primal_fields_at(line@, re, 6));
            }
            return None;
        },
    };
    let f4 = match primal_field(line, f3.1) {
        Some(t) => t,
        None => {
            proof {
                lemma_primal_fields_unfold(line@, re, 6);
                lemma_primal_fields_unfold(line@, f0.1 as int, 5);
                lemma_primal_fields_unfold(line@, f1.1 as int, 4);
                lemma_primal_fields_unfold(line@, f2.1 as int, 3);
                lemma_primal_fields_unfold(line@, f3.1 as int, 2);
                assert(!primal_fields_at(line@, f3.1 as int, 2));
                assert(!primal_fields_at(line@, f2.1 as int, 3));
                assert(!primal_fields_at(line@, f1.1 as int, 4));
                assert(!primal_fields_at(line@, f0.1 as int, 5));
                assert(!primal_fields_at(line@, re, 6));
            }
            return None;
        },
    };
    let f5 = match primal_field(line, f4.1) {
        Some(t) => t,
        None => {
            proof {
                lemma_primal_fields_unfold(line@, re, 6);
                lemma_primal_fields_unfold(line@, f0.1 as int, 5);
                lemma_primal_fields_unfold(line@, f1.1 as int, 4);
                lemma_primal_fields_unfold(line@, f2.1 as int, 3);
                lemma_primal_fields_unfold(line@, f3.1 as int, 2);
                lemma_primal_fields_unfold(line@, f4.1 as int, 1);
                assert(!primal_fields_at(line@, f4.1 as int, 1));
                assert(!primal_fields_at(line@, f3.1 as int, 2));
                assert(!primal_fields_at(line@, f2.1 as int, 3));
                assert(!primal_fields_at(line@, f1.1 as int, 4));
                assert(!primal_fields_at(line@, f0.1 as int, 5));
                assert(!primal_fields_at(line@, re, 6));
            }
            return None;
        },
    };
    proof {
        lemma_primal_fields_unfold(line@, re, 6);
        lemma_primal_fields_unfold(line@, f0.1 as int, 5);
        lemma_primal_fields_unfold(line@, f1.1 as int, 4);
        lemma_primal_fields_unfold(line@, f2.1 as int, 3);
        lemma_primal_fields_unfold(line@, f3.1 as int, 2);
        lemma_primal_fields_unfold(line@, f4.1 as int, 1);
        assert(primal_fields_at(line@, f5.1 as int, 0));
        assert(primal_fields_at(line@, f4.1 as int, 1));
        assert(primal_fields_at(line@, f3.1 as int, 2));
        assert(primal_fields_at(line@, f2.1 as int, 3));
        assert(primal_fields_at(line@, f1.1 as int, 4));
        assert(primal_fields_at(line@, f0.1 as int, 5));
        assert(primal_fields_at(line@, re, 6));
        lemma_primal_start_unfold(line@, re, 1);
        lemma_primal_start_unfold(line@, re, 2);
        lemma_primal_start_unfold(line@, re, 3);
        lemma_primal_start_unfold(line@, re, 4);
        lemma_primal_start_unfold(line@, re, 5);
        lemma_primal_start_unfold(line@, f0.1 as int, 1);
        lemma_primal_start_unfold(line@, f0.1 as int, 2);
        lemma_primal_start_unfold(line@, f0.1 as int, 3);
        lemma_primal_start_unfold(line@, f0.1 as int, 4);
        lemma_primal_start_unfold(line@, f1.1 as int, 1);
        lemma_primal_start_unfold(line@, f1.1 as int, 2);
        lemma_primal_start_unfold(line@, f1.1 as int, 3);
        lemma_primal_start_unfold(line@, f2.1 as int, 1);
        lemma_primal_start_unfold(line@, f2.1 as int, 2);
        lemma_primal_start_unfold(line@, f3.1 as int, 1);
        assert(primal_field_start(line@, re, 0) == re + space_run(line@, re));
        assert(primal_field_start(line@, f0.1 as int, 0) == f0.1 + space_run(
            line@,
            f0.1 as int,
        ));
        assert(primal_field_start(line@, f1.1 as int, 0) == f1.1 + space_run(
            line@,
            f1.1 as int,
        ));
        assert(primal_field_start(line@, f2.1 as int, 0) == f2.1 + space_run(
            line@,
            f2.1 as int,
        ));
        assert(primal_field_start(line@, f3.1 as int, 0) == f3.1 + space_run(
            line@,
            f3.1 as int,
        ));
        assert(primal_field_start(line@, f4.1 as int, 0) == f4.1 + space_run(
            line@,
            f4.1 as int,
        ));
        assert(f0.0@ == primal_value(line@, 0));
        assert(f1.0@ == primal_value(line@, 1));
        assert(f2.0@ == primal_value(line@, 2));
        assert(f3.0@ == primal_value(line@, 3));
        assert(f4.0@ == primal_value(line@, 4));
        assert(f5.0@ == primal_value(line@, 5));
        assert(primal_line_at(line@));
    }
    let mut values: Vec<String> = Vec::new();
    values.push(f0.0);
    values.push(f1.0);
    values.push(f2.0);
    values.push(f3.0);
    values.push(f4.0);
    values.push(f5.0);
    Some((label, values))
}

/// Lower-casing with spaces turned to underscores.
pub open spec fn norm_label_spec(s: Seq<char>) -> Seq<char> {
    Seq::new(
        s.len(),
        |i: int|
            if s[i] == ' ' {
                '_'
            } else {
                lower_char(s[i])
            },
    )
}

/// Lower-case a label and join its words with underscores.
fn normalize_label(label: &str) -> (s: String)
    ensures
        s@ == norm_label_spec(label@),
{
    let chars = crate::text::chars_of_str(label);
    let n = chars.len();
    let mut s = String::new();
    let mut i: usize = 0;
    while i < n
        invariant
            i <= n == chars@.len(),
            chars@ == label@,
            s@ == norm_label_spec(label@).subrange(0, i as int),
        decreases n - i,
    {
        let c = chars[i];
        if c == ' ' {
            s.push('_');
        } else {
            s.push(lower_char_exec(c));
        }
        proof {
            assert(norm_label_spec(label@)[i as int] == (if label@[i as int] == ' ' {
                '_'
            } else {
                lower_char(label@[i as int])
            }));
            assert(s@ =~= norm_label_spec(label@).subrange(0, i + 1));
        }
        i += 1;
    }
    proof {
        assert(norm_label_spec(label@).subrange(0, n as int) =~= norm_label_spec(label@));
    }
    s
}


/// No line starts with the prefix.
pub open spec fn no_prefix_line(ls: Seq<Seq<char>>, p: Seq<char>) -> bool {
    forall|i: int| 0 <= i < ls.len() ==> !spec_starts_with(#[trigger] ls[i], p)
}

/// No line contains the pattern.
pub open spec fn no_containing_line(ls: Seq<Seq<char>>, p: Seq<char>) -> bool {
    forall|i: int| 0 <= i < ls.len() ==> !spec_contains(#[trigger] ls[i], p)
}

/// Index of the first line at or after `i` that starts with the prefix, or
/// the number of lines when none does.
pub open spec fn first_pref_line(ls: Seq<Seq<char>>, p: Seq<char>, i: int) -> int
    decreases ls.len() - i,
{
    if i < 0 || i >= ls.len() {
        ls.len() as int
    } else if spec_starts_with(ls[i], p) {
        i
    } else {
        first_pref_line(ls, p, i + 1)
    }
}

proof fn lemma_first_pref_is(ls: Seq<Seq<char>>, p: Seq<char>, from: int, i: int)
    requires
        0 <= from <= i < ls.len(),
        spec_starts_with(ls[i], p),
        forall|j: int| from <= j < i ==> !spec_starts_with(#[trigger] ls[j], p),
    ensures
        first_pref_line(ls, p, from) == i,
    decreases i - from,
{
    if from < i {
        lemma_first_pref_is(ls, p, from + 1, i);
    }
}

proof fn lemma_first_pref_props(ls: Seq<Seq<char>>, p: Seq<char>, from: int)
    requires
        0 <= from <= ls.len(),
    ensures
        from <= first_pref_line(ls, p, from) <= ls.len(),
        first_pref_line(ls, p, from) < ls.len() ==> spec_starts_with(
            ls[first_pref_line(ls, p, from)],
            p,
        ),
    decreases ls.len() - from,
{
    if from < ls.len() && !spec_starts_with(ls[from], p) {
        lemma_first_pref_props(ls, p, from + 1);
    }
}

proof fn lemma_first_pref_none(ls: Seq<Seq<char>>, p: Seq<char>, from: int)
    requires
        0 <= from,
        forall|j: int| from <= j < ls.len() ==> !spec_starts_with(#[trigger] ls[j], p),
    ensures
        first_pref_line(ls, p, from) == ls.len(),
    decreases ls.len() - from,
{
    if from < ls.len() {
        lemma_first_pref_none(ls, p, from + 1);
    }
}

/// Index of the first month/day/year group at or after `i`, or the line
/// length when none stands anywhere.
pub open spec fn first_mdy(l: Seq<char>, i: int, year_exact4: bool) -> int
    decreases l.len() - i,
{
    if i < 0 || i >= l.len() {
        l.len() as int
    } else if mdy_struct(l, i, year_exact4) {
        i
    } else {
        first_mdy(l, i + 1, year_exact4)
    }
}

pub proof fn lemma_first_mdy_is(l: Seq<char>, year_exact4: bool, from: int, i: int)
    requires
        0 <= from <= i < l.len(),
        mdy_struct(l, i, year_exact4),
        forall|j: int| from <= j < i ==> !#[trigger] mdy_struct(l, j, year_exact4),
    ensures
        first_mdy(l, from, year_exact4) == i,
    decreases i - from,
{
    if from < i {
        lemma_first_mdy_is(l, year_exact4, from + 1, i);
    }
}

pub proof fn lemma_first_mdy_none(l: Seq<char>, year_exact4: bool, from: int)
    requires
        0 <= from,
        forall|j: int| from <= j < l.len() ==> !#[trigger] mdy_struct(l, j, year_exact4),
    ensures
        first_mdy(l, from, year_exact4) == l.len(),
    decreases l.len() - from,
{
    if from < l.len() {
        lemma_first_mdy_none(l, year_exact4, from + 1);
    }
}

/// The date denoted by the leftmost month/day/year group of a line: `None`
/// when no group stands anywhere, its runs are too long to denote numbers,
/// or the numbers form no valid calendar day.
pub open spec fn line_mdy_date(l: Seq<char>, year_exact4: bool) -> Option<Date> {
    let i = first_mdy(l, 0, year_exact4);
    if i < 0 || i >= l.len() {
        None
    } else {
        match mdy_values(l, i, year_exact4) {
            Some((m, d, y)) => {
                let dt = Date { year: y, month: m, day: d };
                if dt.valid() {
                    Some(dt)
                } else {
                    None
                }
            },
            None => None,
        }
    }
}

/// The report date of a boxed-beef bulletin: the date captured from the
/// first "For Week Ending:" line; `None` when that anchor is missing or its
/// date does not parse.
pub open spec fn lmx_report_date(text: Seq<char>) -> Option<Date> {
    let ls = spec_split_lines(text);
    let li = first_pref_line(ls, "For Week Ending:"@, 0);
    if li < 0 || li >= ls.len() {
        None
    } else {
        line_mdy_date(ls[li], true)
    }
}

/// The six cutout grade suffixes, in field order.
pub open spec fn cutout_suffix(k: int) -> Seq<char> {
    if k == 0 {
        "__comprehensive"@
    } else if k == 1 {
        "__prime"@
    } else if k == 2 {
        "__branded"@
    } else if k == 3 {
        "__choice"@
    } else if k == 4 {
        "__select"@
    } else {
        "__ungraded"@
    }
}

/// The summary key a matched cutout line's field `k` is stored under.
pub open spec fn cutout_key(label: Seq<char>, k: int) -> Seq<char> {
    norm_label_spec(label) + cutout_suffix(k)
}

/// Set one entry; every entry under a different key keeps its value.
fn set_entry_keeping(sec: &mut USDADataPackageSection, key: String, value: String)
    requires
        old(sec).wf(),
    ensures
        final(sec).wf(),
        final(sec).report_date == old(sec).report_date,
        final(sec).independent == old(sec).independent,
        has_entry_valued(*final(sec), key@, value@),
        forall|k2: Seq<char>, v2: Seq<char>|
            has_entry_valued(*old(sec), k2, v2) && k2 != key@ ==> has_entry_valued(
                *final(sec),
                k2,
                v2,
            ),
{
    let ghost key_view = key@;
    let ghost value_view = value@;
    sec.set_entry(key, value);
    proof {
        assert(sec.entry_keys().contains(key_view));
        let ki = choose|ki: int|
            0 <= ki < sec.entry_keys().len() && sec.entry_keys()[ki] == key_view;
        assert(sec.entries@[ki].0@ == key_view);
        assert(sec.entries@[ki].1@ == value_view);
        assert(has_entry_valued(*sec, key_view, value_view));
        assert forall|k2: Seq<char>, v2: Seq<char>|
            has_entry_valued(*old(sec), k2, v2) && k2 != key_view implies has_entry_valued(
            *sec,
            k2,
            v2,
        ) by {
            let e = choose|e: int|
                0 <= e < old(sec).entries@.len() && (#[trigger] old(sec).entries@[e]).0@ == k2
                    && old(sec).entries@[e].1@ == v2;
            assert(sec.entries@.contains(old(sec).entries@[e]));
            let e2 = choose|e2: int|
                0 <= e2 < sec.entries@.len() && sec.entries@[e2] == old(sec).entries@[e];
            assert(sec.entries@[e2].0@ == k2);
        }
    }
}

/// No cutout key is the total-loads key: a cutout key holds two adjoining
/// underscores where the total-loads key holds none.
proof fn lemma_cutout_key_not_total(label: Seq<char>, k: int)
    requires
        0 <= k < 6,
    ensures
        cutout_key(label, k) != "total_loads"@,
{
    reveal_strlit("total_loads");
    reveal_strlit("__comprehensive");
    reveal_strlit("__prime");
    reveal_strlit("__branded");
    reveal_strlit("__choice");
    reveal_strlit("__select");
    reveal_strlit("__ungraded");
    let key = cutout_key(label, k);
    let nl = norm_label_spec(label).len() as int;
    if key == "total_loads"@ {
        assert(key.len() == 11);
        assert(key[nl] == cutout_suffix(k)[0]);
        assert(key[nl] == '_');
        if k == 1 {
            assert(nl == 4);
            assert(key[4] == 'l');
        } else if k == 2 {
            assert(nl == 2);
            assert(key[2] == 't');
        } else if k == 3 || k == 4 {
            assert(nl == 3);
            assert(key[3] == 'a');
        } else if k == 5 {
            assert(nl == 1);
            assert(key[1] == 'o');
        } else {
            assert(key.len() >= 15);
        }
        assert(false);
    }
}

/// The summary carries field `k` of the matched cutout line at `li` —
/// unless a later matched line of the window writes the very same key,
/// which then holds that later line's value.
pub open spec fn cutout_claim(
    ls: Seq<Seq<char>>,
    w: int,
    rec: USDADataPackageSection,
    li: int,
    k: int,
) -> bool {
    ||| has_entry_valued(rec, cutout_key(primal_label(ls[li]), k), primal_value(ls[li], k))
    ||| exists|li2: int, k2: int|
        #![trigger cutout_key(primal_label(ls[li2]), k2)]
        li < li2 && w <= li2 < w + 9 && li2 < ls.len() && primal_line_at(ls[li2]) && 0 <= k2 < 6
            && cutout_key(primal_label(ls[li2]), k2) == cutout_key(primal_label(ls[li]), k)
}

/// Every summary record carries, for each matched line of the nine-line
/// cutout window and each of its six fields, that field's entry.
pub open spec fn lmxb463_summary_cutouts(text: Seq<char>, p: USDADataPackage) -> bool {
    let ls = spec_split_lines(text);
    let w = first_pref_line(ls, "Weekly Cutout Value"@, 0);
    forall|i: int, j: int, li: int, k: int|
        #![trigger p.sections@[i].1@[j], ls[li], cutout_suffix(k)]
        0 <= i < p.sections@.len() && p.sections@[i].0@ == "summary"@ && 0 <= j
            < p.sections@[i].1@.len() && w <= li < w + 9 && li < ls.len() && primal_line_at(
            ls[li],
        ) && 0 <= k < 6 ==> cutout_claim(ls, w, p.sections@[i].1@[j], li, k)
}

/// A record of the bulletin: stamped with the report date, its first
/// independent value the date's ISO text.
pub open spec fn bulletin_record_shape(rec: USDADataPackageSection, rd: Date, n_indep: int) -> bool {
    rec.report_date == rd && rec.wf() && rec.independent@.len() == n_indep && rec.independent@[0]@
        == rd.spec_iso()
}

/// Shape of a parsed boxed-beef bulletin: the mandatory summary, quality
/// and sales-type sections with one record each, optionally destination and
/// delivery, every record stamped with the one report date.
pub open spec fn lmxb463_package_shape(p: USDADataPackage, rd: Date) -> bool {
    &&& p.name@ == "LM_XB463"@
    &&& p.wf()
    &&& rd.valid()
    &&& p.section_names().contains("summary"@)
    &&& p.section_names().contains("quality"@)
    &&& p.section_names().contains("sales_type"@)
    &&& forall|i: int|
        0 <= i < p.sections@.len() ==> ((#[trigger] p.sections@[i]).0@ == "summary"@
            || p.sections@[i].0@ == "quality"@ || p.sections@[i].0@ == "sales_type"@
            || p.sections@[i].0@ == "destination"@ || p.sections@[i].0@ == "delivery"@)
    &&& forall|i: int| 0 <= i < p.sections@.len() ==> (#[trigger] p.sections@[i]).1@.len() == 1
    &&& forall|i: int, j: int|
        0 <= i < p.sections@.len() && 0 <= j < p.sections@[i].1@.len() ==> bulletin_record_shape(
            #[trigger] p.sections@[i].1@[j],
            rd,
            1,
        )
    &&& forall|i: int, j: int|
        0 <= i < p.sections@.len() && p.sections@[i].0@ == "summary"@ && 0 <= j
            < p.sections@[i].1@.len() ==> (#[trigger] p.sections@[i].1@[j]).entry_keys().contains(
            "total_loads"@,
        )
}


/// The line opens the sales-type section, under either revision's heading.
pub open spec fn starts_sales(l: Seq<char>) -> bool {
    spec_starts_with(l, "Sales type breakdown:"@) || spec_starts_with(l, "TYPE OF SALES"@)
}

/// Index of the first line at or after `i` that opens the sales-type
/// section, or the number of lines when none does.
pub open spec fn first_sales_line(ls: Seq<Seq<char>>, i: int) -> int
    decreases ls.len() - i,
{
    if i < 0 || i >= ls.len() {
        ls.len() as int
    } else if starts_sales(ls[i]) {
        i
    } else {
        first_sales_line(ls, i + 1)
    }
}

proof fn lemma_first_sales_is(ls: Seq<Seq<char>>, from: int, i: int)
    requires
        0 <= from <= i < ls.len(),
        starts_sales(ls[i]),
        forall|j: int| from <= j < i ==> !starts_sales(#[trigger] ls[j]),
    ensures
        first_sales_line(ls, from) == i,
    decreases i - from,
{
    if from < i {
        lemma_first_sales_is(ls, from + 1, i);
    }
}

proof fn lemma_first_sales_none(ls: Seq<Seq<char>>, from: int)
    requires
        0 <= from,
        forall|j: int| from <= j < ls.len() ==> !starts_sales(#[trigger] ls[j]),
    ensures
        first_sales_line(ls, from) == ls.len(),
    decreases ls.len() - from,
{
    if from < ls.len() {
        lemma_first_sales_none(ls, from + 1);
    }
}

/// First line that opens the sales-type section, under either revision's
/// heading.
fn find_sales_anchor(text_array: &Vec<Vec<char>>) -> (r: Option<usize>)
    ensures
        match r {
            Some(i) => i < text_array@.len() && starts_sales(text_array@[i as int]@) && forall|
                j: int,
            |
                0 <= j < i ==> !starts_sales((#[trigger] text_array@[j])@),
            None => forall|j: int|
                0 <= j < text_array@.len() ==> !starts_sales((#[trigger] text_array@[j])@),
        },
{
    let mut i: usize = 0;
    while i < text_array.len()
        invariant
            i <= text_array@.len(),
            forall|j: int| 0 <= j < i ==> !starts_sales((#[trigger] text_array@[j])@),
        decreases text_array@.len() - i,
    {
        if line_starts_with(&text_array[i], "Sales type breakdown:") || line_starts_with(
            &text_array[i],
            "TYPE OF SALES",
        ) {
            return Some(i);
        }
        i += 1;
    }
    None
}

/// A thousands-grouped number character: a digit or a comma.
pub open spec fn is_vc(c: char) -> bool {
    is_digit(c) || c == ','
}

/// Length of the maximal digit-and-comma run starting at `i`.
pub open spec fn vc_run(s: Seq<char>, i: int) -> int
    decreases s.len() - i,
{
    if 0 <= i < s.len() && is_vc(s[i]) {
        1 + vc_run(s, i + 1)
    } else {
        0
    }
}

/// Index of the first digit-or-comma at or after `i`, or the length.
pub open spec fn first_vc(s: Seq<char>, i: int) -> int
    decreases s.len() - i,
{
    if i < 0 || i >= s.len() {
        s.len() as int
    } else if is_vc(s[i]) {
        i
    } else {
        first_vc(s, i + 1)
    }
}

/// The line holds a digit-or-comma run.
pub open spec fn has_value_run(l: Seq<char>) -> bool {
    first_vc(l, 0) < l.len()
}

/// The first maximal digit-and-comma run of the line.
pub open spec fn spec_first_value_run(l: Seq<char>) -> Seq<char> {
    let a = first_vc(l, 0);
    l.subrange(a, a + vc_run(l, a))
}

proof fn lemma_first_vc_is(s: Seq<char>, from: int, i: int)
    requires
        0 <= from <= i < s.len(),
        is_vc(s[i]),
        forall|j: int| from <= j < i ==> !is_vc(#[trigger] s[j]),
    ensures
        first_vc(s, from) == i,
    decreases i - from,
{
    if from < i {
        lemma_first_vc_is(s, from + 1, i);
    }
}

proof fn lemma_first_vc_none(s: Seq<char>, from: int)
    requires
        0 <= from,
        forall|j: int| from <= j < s.len() ==> !is_vc(#[trigger] s[j]),
    ensures
        first_vc(s, from) == s.len(),
    decreases s.len() - from,
{
    if from < s.len() {
        lemma_first_vc_none(s, from + 1);
    }
}

proof fn lemma_vc_run_bounds(s: Seq<char>, i: int)
    requires
        0 <= i <= s.len(),
    ensures
        i + vc_run(s, i) <= s.len(),
        forall|k: int| i <= k < i + vc_run(s, i) ==> is_vc(#[trigger] s[k]),
    decreases s.len() - i,
{
    if i < s.len() && is_vc(s[i]) {
        lemma_vc_run_bounds(s, i + 1);
    }
}

/// The first run of digits and commas in the line, exactly; `None` when no
/// digit or comma stands anywhere.
fn capture_value_run(line: &[char]) -> (r: Option<String>)
    ensures
        match r {
            Some(v) => has_value_run(line@) && v@ == spec_first_value_run(line@) && v@.len() >= 1
                && all_value_chars(v@),
            None => !has_value_run(line@),
        },
{
    let n = line.len();
    let mut i: usize = 0;
    while i < n && !(is_digit_exec(line[i]) || line[i] == ',')
        invariant
            i <= n == line@.len(),
            forall|j: int| 0 <= j < i ==> !is_vc(#[trigger] line@[j]),
        decreases n - i,
    {
        i += 1;
    }
    if i >= n {
        proof {
            lemma_first_vc_none(line@, 0);
        }
        return None;
    }
    proof {
        lemma_first_vc_is(line@, 0, i as int);
    }
    let st = i;
    while i < n && (is_digit_exec(line[i]) || line[i] == ',')
        invariant
            st <= i <= n == line@.len(),
            vc_run(line@, st as int) == (i - st) + vc_run(line@, i as int),
        decreases n - i,
    {
        i += 1;
    }
    proof {
        assert(vc_run(line@, i as int) == 0);
        lemma_vc_run_bounds(line@, st as int);
    }
    let v = string_from_range(line, st, i);
    proof {
        assert(v@ =~= spec_first_value_run(line@));
        assert forall|k: int| 0 <= k < v@.len() implies is_digit(#[trigger] v@[k]) || v@[k]
            == ',' by {
            assert(v@[k] == line@[st + k]);
            assert(is_vc(line@[st + k]));
        }
    }
    Some(v)
}

/// The totals line: the first line opening with the primary heading, or
/// with the fallback heading when the primary occurs nowhere.
pub open spec fn lmx_totals_anchor(ls: Seq<Seq<char>>) -> int {
    if first_pref_line(ls, "TOTAL LOADS OF PRODUCT REPORTED"@, 0) < ls.len() {
        first_pref_line(ls, "TOTAL LOADS OF PRODUCT REPORTED"@, 0)
    } else {
        first_pref_line(ls, "TOTAL LOADS"@, 0)
    }
}

/// The quality anchor: the first "Quality breakdown:" line, or the first
/// "TOTAL LOADS" line under the other format revision.
pub open spec fn lmx_quality_anchor(ls: Seq<Seq<char>>) -> int {
    if first_pref_line(ls, "Quality breakdown:"@, 0) < ls.len() {
        first_pref_line(ls, "Quality breakdown:"@, 0)
    } else {
        first_pref_line(ls, "TOTAL LOADS"@, 0)
    }
}

/// The parse's stages, cumulatively: the report date parses.
pub open spec fn lmx_stage_date(text: Seq<char>) -> bool {
    lmx_report_date(text) is Some
}

/// ... and the totals line exists and holds its count.
pub open spec fn lmx_stage_totals(text: Seq<char>) -> bool {
    let ls = spec_split_lines(text);
    lmx_stage_date(text) && lmx_totals_anchor(ls) < ls.len() && has_value_run(
        ls[lmx_totals_anchor(ls)],
    )
}

/// ... and the cutout anchor exists with its nine-line window.
pub open spec fn lmx_stage_cutout(text: Seq<char>) -> bool {
    let ls = spec_split_lines(text);
    lmx_stage_totals(text) && first_pref_line(ls, "Weekly Cutout Value"@, 0) < ls.len()
        && ls.len() - first_pref_line(ls, "Weekly Cutout Value"@, 0) >= 9
}

/// ... and the quality anchor exists with its five-line window.
pub open spec fn lmx_stage_quality(text: Seq<char>) -> bool {
    let ls = spec_split_lines(text);
    lmx_stage_cutout(text) && lmx_quality_anchor(ls) < ls.len() && ls.len() - lmx_quality_anchor(
        ls,
    ) >= 6
}

/// ... and the sales anchor exists with its four-line window.
pub open spec fn lmx_stage_sales(text: Seq<char>) -> bool {
    let ls = spec_split_lines(text);
    lmx_stage_quality(text) && first_sales_line(ls, 0) < ls.len() && ls.len() - first_sales_line(
        ls,
        0,
    ) >= 5
}

/// ... and the optional destination anchor, where present, has its window.
pub open spec fn lmx_stage_dest(text: Seq<char>) -> bool {
    let ls = spec_split_lines(text);
    lmx_stage_sales(text) && (first_pref_line(ls, "Destination breakdown:"@, 0) >= ls.len()
        || ls.len() - first_pref_line(ls, "Destination breakdown:"@, 0) >= 4)
}

/// The document parses: every stage above, and the optional delivery
/// anchor, where present, has its window.
pub open spec fn lmxb463_document_ok(text: Seq<char>) -> bool {
    let ls = spec_split_lines(text);
    lmx_stage_dest(text) && (first_pref_line(ls, "Delivery period breakdown:"@, 0) >= ls.len()
        || ls.len() - first_pref_line(ls, "Delivery period breakdown:"@, 0) >= 5)
}

/// The optional sections stand in the package exactly when their anchors
/// stand in the document.
pub open spec fn lmxb463_sections_follow_anchors(text: Seq<char>, p: USDADataPackage) -> bool {
    let ls = spec_split_lines(text);
    &&& (p.section_names().contains("destination"@) <==> first_pref_line(
        ls,
        "Destination breakdown:"@,
        0,
    ) < ls.len())
    &&& (p.section_names().contains("delivery"@) <==> first_pref_line(
        ls,
        "Delivery period breakdown:"@,
        0,
    ) < ls.len())
}

/// The record holds an entry with this key and this value.
pub open spec fn has_entry_valued(rec: USDADataPackageSection, k: Seq<char>, v: Seq<char>) -> bool {
    exists|e: int|
        0 <= e < rec.entries@.len() && (#[trigger] rec.entries@[e]).0@ == k && rec.entries@[e].1@
            == v
}

/// Every summary record carries the total-loads count captured from the
/// totals line: its first digit-and-comma run.
pub open spec fn lmxb463_summary_total(text: Seq<char>, p: USDADataPackage) -> bool {
    let ls = spec_split_lines(text);
    forall|i: int, j: int|
        0 <= i < p.sections@.len() && p.sections@[i].0@ == "summary"@ && 0 <= j
            < p.sections@[i].1@.len() ==> has_entry_valued(
            #[trigger] p.sections@[i].1@[j],
            "total_loads"@,
            spec_first_value_run(ls[lmx_totals_anchor(ls)]),
        )
}

/// The documented failures of the boxed-beef parse. Each case names the
/// one message, requires every earlier stage to have passed, and ties the
/// message to exactly the document state that produces it.
pub open spec fn lmxb463_err_cases(text: Seq<char>, e: Seq<char>) -> bool {
    let ls = spec_split_lines(text);
    ||| (e == "Failed to find date line"@ && first_pref_line(ls, "For Week Ending:"@, 0)
        >= ls.len())
    ||| (e == "Failed to parse date line for report, aborting."@ && first_pref_line(
        ls,
        "For Week Ending:"@,
        0,
    ) < ls.len() && !lmx_stage_date(text))
    ||| (e == "Failed to find total load count location."@ && lmx_stage_date(text)
        && lmx_totals_anchor(ls) >= ls.len())
    ||| (e == "Failed to capture total loads for report, aborting."@ && lmx_stage_date(text)
        && lmx_totals_anchor(ls) < ls.len() && !has_value_run(ls[lmx_totals_anchor(ls)]))
    ||| (e == "Failed to locate cutout value line"@ && lmx_stage_totals(text) && first_pref_line(
        ls,
        "Weekly Cutout Value"@,
        0,
    ) >= ls.len())
    ||| (e == "Cutout value section is truncated."@ && lmx_stage_totals(text) && first_pref_line(
        ls,
        "Weekly Cutout Value"@,
        0,
    ) < ls.len() && ls.len() - first_pref_line(ls, "Weekly Cutout Value"@, 0) < 9)
    ||| (e == "Failed to locate quality section location"@ && lmx_stage_cutout(text)
        && lmx_quality_anchor(ls) >= ls.len())
    ||| (e == "Quality section is truncated."@ && lmx_stage_cutout(text) && lmx_quality_anchor(ls)
        < ls.len() && ls.len() - lmx_quality_anchor(ls) < 6)
    ||| (e == "Failed to locate sales section"@ && lmx_stage_quality(text) && first_sales_line(
        ls,
        0,
    ) >= ls.len())
    ||| (e == "Sales section is truncated."@ && lmx_stage_quality(text) && first_sales_line(ls, 0)
        < ls.len() && ls.len() - first_sales_line(ls, 0) < 5)
    ||| (e == "Destination section is truncated."@ && lmx_stage_sales(text) && first_pref_line(
        ls,
        "Destination breakdown:"@,
        0,
    ) < ls.len() && ls.len() - first_pref_line(ls, "Destination breakdown:"@, 0) < 4)
    ||| (e == "Delivery section is truncated."@ && lmx_stage_dest(text) && first_pref_line(
        ls,
        "Delivery period breakdown:"@,
        0,
    ) < ls.len() && ls.len() - first_pref_line(ls, "Delivery period breakdown:"@, 0) < 5)
}

/// Parse the boxed-beef text bulletin: the report date from the
/// "For Week Ending:" anchor, the summary (total loads and cutout values),
/// the quality and sales-type breakdowns, and, where present, the
/// destination and delivery-period breakdowns. Every record of the result
/// is stamped with the one report date; a window line that fails its
/// section's pattern is a per-record defect, skipped, never a failure.
/// The parse succeeds exactly when the date parses and every anchor stands
/// with its full line window.
pub fn lmxb463_text_parse(text: &str) -> (r: Result<USDADataPackage, String>)
    ensures
        r is Ok <==> lmxb463_document_ok(text@),
        match r {
            Ok(p) => (match lmx_report_date(text@) {
                Some(rd) => lmxb463_package_shape(p, rd),
                None => false,
            }) && lmxb463_sections_follow_anchors(text@, p) && lmxb463_summary_total(text@, p)
                && lmxb463_summary_cutouts(text@, p),
            Err(e) => lmxb463_err_cases(text@, e@),
        },
{
    let text_array = split_lines(text);
    let nlines = text_array.len();
    let ghost ls = spec_split_lines(text@);
    proof {
        assert(ls == lines_view(text_array@));
        assert forall|j: int| 0 <= j < ls.len() implies #[trigger] ls[j] == text_array@[j]@ by {
            assert(lines_view(text_array@)[j] == text_array@[j]@);
        }
    }

    let location = match find_line_starts_with(&text_array, "For Week Ending:") {
        Some(line) => line,
        None => {
            proof {
                assert forall|j: int|
                    0 <= j < ls.len() implies !spec_starts_with(
                    #[trigger] ls[j],
                    "For Week Ending:"@,
                ) by {
                    assert(ls[j] == text_array@[j]@);
                }
                lemma_first_pref_none(ls, "For Week Ending:"@, 0);
            }
            return Err("Failed to find date line".to_owned());
        },
    };
    proof {
        assert(spec_starts_with(ls[location as int], "For Week Ending:"@));
        assert forall|j: int|
            0 <= j < location implies !spec_starts_with(#[trigger] ls[j], "For Week Ending:"@) by {
            assert(ls[j] == text_array@[j]@);
        }
        lemma_first_pref_is(ls, "For Week Ending:"@, 0, location as int);
    }
    let ghost date_line = ls[location as int];
    let report_date: Date = match scan_mdy(text_array[location].as_slice(), true) {
        Some((m, d, y)) => match Date::new(y, m, d) {
            Some(dt) => dt,
            None => {
                proof {
                    let i = choose|i: int|
                        #![trigger mdy_struct(date_line, i, true)]
                        mdy_struct(date_line, i, true) && mdy_values(date_line, i, true) == Some(
                            (m, d, y),
                        ) && forall|j: int| 0 <= j < i ==> !mdy_struct(date_line, j, true);
                    lemma_first_mdy_is(date_line, true, 0, i);
                    assert(line_mdy_date(date_line, true) is None);
                }
                return Err("Failed to parse date line for report, aborting.".to_owned());
            },
        },
        None => {
            proof {
                if forall|i: int| 0 <= i < date_line.len() ==> !#[trigger] mdy_struct(
                    date_line,
                    i,
                    true,
                ) {
                    lemma_first_mdy_none(date_line, true, 0);
                } else {
                    let i = choose|i: int|
                        #![trigger mdy_struct(date_line, i, true)]
                        mdy_struct(date_line, i, true) && mdy_values(date_line, i, true) is None
                            && forall|j: int| 0 <= j < i ==> !mdy_struct(date_line, j, true);
                    lemma_first_mdy_is(date_line, true, 0, i);
                }
                assert(line_mdy_date(date_line, true) is None);
            }
            return Err("Failed to parse date line for report, aborting.".to_owned());
        },
    };
    proof {
        let i = choose|i: int|
            #![trigger mdy_struct(date_line, i, true)]
            mdy_struct(date_line, i, true) && mdy_values(date_line, i, true) == Some(
                (report_date.month, report_date.day, report_date.year),
            ) && forall|j: int| 0 <= j < i ==> !mdy_struct(date_line, j, true);
        lemma_first_mdy_is(date_line, true, 0, i);
        assert(lmx_report_date(text@) == Some(report_date));
    }

    // the totals line: primary heading first, then the fallback
    let location = match find_line_starts_with(&text_array, "TOTAL LOADS OF PRODUCT REPORTED") {
        Some(line) => {
            proof {
                assert(spec_starts_with(ls[line as int], "TOTAL LOADS OF PRODUCT REPORTED"@));
                assert forall|j: int|
                    0 <= j < line implies !spec_starts_with(
                    #[trigger] ls[j],
                    "TOTAL LOADS OF PRODUCT REPORTED"@,
                ) by {
                    assert(ls[j] == text_array@[j]@);
                }
                lemma_first_pref_is(ls, "TOTAL LOADS OF PRODUCT REPORTED"@, 0, line as int);
                assert(lmx_totals_anchor(ls) == line as int);
            }
            line
        },
        None => match find_line_starts_with(&text_array, "TOTAL LOADS") {
            Some(line) => {
                proof {
                    assert forall|j: int|
                        0 <= j < ls.len() implies !spec_starts_with(
                        #[trigger] ls[j],
                        "TOTAL LOADS OF PRODUCT REPORTED"@,
                    ) by {
                        assert(ls[j] == text_array@[j]@);
                    }
                    lemma_first_pref_none(ls, "TOTAL LOADS OF PRODUCT REPORTED"@, 0);
                    assert(spec_starts_with(ls[line as int], "TOTAL LOADS"@));
                    assert forall|j: int|
                        0 <= j < line implies !spec_starts_with(
                        #[trigger] ls[j],
                        "TOTAL LOADS"@,
                    ) by {
                        assert(ls[j] == text_array@[j]@);
                    }
                    lemma_first_pref_is(ls, "TOTAL LOADS"@, 0, line as int);
                    assert(lmx_totals_anchor(ls) == line as int);
                }
                line
            },
            None => {
                proof {
                    assert forall|j: int|
                        0 <= j < ls.len() implies !spec_starts_with(
                        #[trigger] ls[j],
                        "TOTAL LOADS OF PRODUCT REPORTED"@,
                    ) by {
                        assert(ls[j] == text_array@[j]@);
                    }
                    lemma_first_pref_none(ls, "TOTAL LOADS OF PRODUCT REPORTED"@, 0);
                    assert forall|j: int|
                        0 <= j < ls.len() implies !spec_starts_with(
                        #[trigger] ls[j],
                        "TOTAL LOADS"@,
                    ) by {
                        assert(ls[j] == text_array@[j]@);
                    }
                    lemma_first_pref_none(ls, "TOTAL LOADS"@, 0);
                    assert(lmx_totals_anchor(ls) >= ls.len());
                }
                return Err("Failed to find total load count location.".to_owned());
            },
        },
    };
    let ghost totals_line = ls[location as int];
    let total_loads: String = match capture_value_run(text_array[location].as_slice()) {
        Some(v) => v,
        None => {
            return Err("Failed to capture total loads for report, aborting.".to_owned());
        },
    };
    proof {
        assert(lmx_stage_totals(text@));
    }

    let mut summary_section = USDADataPackageSection::new(report_date);
    summary_section.independent.push(report_date.format_iso());

    // primal cutout values
    let location = match find_line_starts_with(&text_array, "Weekly Cutout Value") {
        Some(line) => {
            proof {
                assert(spec_starts_with(ls[line as int], "Weekly Cutout Value"@));
                assert forall|j: int|
                    0 <= j < line implies !spec_starts_with(
                    #[trigger] ls[j],
                    "Weekly Cutout Value"@,
                ) by {
                    assert(ls[j] == text_array@[j]@);
                }
                lemma_first_pref_is(ls, "Weekly Cutout Value"@, 0, line as int);
            }
            line
        },
        None => {
            proof {
                assert forall|j: int|
                    0 <= j < ls.len() implies !spec_starts_with(
                    #[trigger] ls[j],
                    "Weekly Cutout Value"@,
                ) by {
                    assert(ls[j] == text_array@[j]@);
                }
                lemma_first_pref_none(ls, "Weekly Cutout Value"@, 0);
            }
            return Err("Failed to locate cutout value line".to_owned());
        },
    };
    if nlines - location < 9 {
        return Err("Cutout value section is truncated.".to_owned());
    }
    proof {
        assert(lmx_stage_cutout(text@));
    }
    let mut li = location;
    while li < location + 9
        invariant
            nlines == text_array@.len(),
            ls == spec_split_lines(text@),
            ls.len() == nlines,
            forall|j: int| 0 <= j < ls.len() ==> #[trigger] ls[j] == text_array@[j]@,
            first_pref_line(ls, "Weekly Cutout Value"@, 0) == location as int,
            location + 9 <= nlines,
            location <= li <= location + 9,
            summary_section.wf(),
            summary_section.report_date == report_date,
            summary_section.independent@.len() == 1,
            summary_section.independent@[0]@ == report_date.spec_iso(),
            forall|li2: int, k: int|
                #![trigger ls[li2], cutout_suffix(k)]
                location <= li2 < li && 0 <= k < 6 && primal_line_at(ls[li2]) ==> cutout_claim(
                    ls,
                    location as int,
                    summary_section,
                    li2,
                    k,
                ),
        decreases location + 9 - li,
    {
        let ghost lv = ls[li as int];
        let ghost old_sum = summary_section;
        match match_primal(text_array[li].as_slice()) {
            Some((label, values)) => {
                proof {
                    assert(ls[li as int] == text_array@[li as int]@);
                    assert(primal_line_at(lv));
                    assert(label@ == primal_label(lv));
                }
                let norm = normalize_label(label.as_str());
                let mut key = norm.clone();
                key.append("__comprehensive");
                let ghost k0 = key@;
                proof {
                    assert(k0 =~= cutout_key(label@, 0));
                }
                set_entry_keeping(&mut summary_section, key, values[0].clone());
                let mut key = norm.clone();
                key.append("__prime");
                let ghost k1 = key@;
                proof {
                    assert(k1 =~= cutout_key(label@, 1));
                }
                set_entry_keeping(&mut summary_section, key, values[1].clone());
                let mut key = norm.clone();
                key.append("__branded");
                let ghost k2 = key@;
                proof {
                    assert(k2 =~= cutout_key(label@, 2));
                }
                set_entry_keeping(&mut summary_section, key, values[2].clone());
                let mut key = norm.clone();
                key.append("__choice");
                let ghost k3 = key@;
                proof {
                    assert(k3 =~= cutout_key(label@, 3));
                }
                set_entry_keeping(&mut summary_section, key, values[3].clone());
                let mut key = norm.clone();
                key.append("__select");
                let ghost k4 = key@;
                proof {
                    assert(k4 =~= cutout_key(label@, 4));
                }
                set_entry_keeping(&mut summary_section, key, values[4].clone());
                let mut key = norm.clone();
                key.append("__ungraded");
                let ghost k5 = key@;
                proof {
                    assert(k5 =~= cutout_key(label@, 5));
                }
                set_entry_keeping(&mut summary_section, key, values[5].clone());
                proof {
                    reveal_strlit("__comprehensive");
                    reveal_strlit("__prime");
                    reveal_strlit("__branded");
                    reveal_strlit("__choice");
                    reveal_strlit("__select");
                    reveal_strlit("__ungraded");
                    let nl = norm_label_spec(label@).len() as int;
                    // the six keys of one line are pairwise distinct
                    assert(k0.len() == nl + 15 && k1.len() == nl + 7 && k2.len() == nl + 9
                        && k3.len() == nl + 8 && k4.len() == nl + 8 && k5.len() == nl + 10);
                    assert(k3[nl + 2] == 'c' && k4[nl + 2] == 's');
                    assert(k3 != k4);
                    // each field's entry survives the later writes
                    assert(has_entry_valued(summary_section, k0, values@[0]@));
                    assert(has_entry_valued(summary_section, k1, values@[1]@));
                    assert(has_entry_valued(summary_section, k2, values@[2]@));
                    assert(has_entry_valued(summary_section, k3, values@[3]@));
                    assert(has_entry_valued(summary_section, k4, values@[4]@));
                    assert(has_entry_valued(summary_section, k5, values@[5]@));
                    assert forall|k: int|
                        0 <= k < 6 implies #[trigger] cutout_claim(
                        ls,
                        location as int,
                        summary_section,
                        li as int,
                        k,
                    ) by {
                        assert(primal_value(lv, k) == values@[k]@);
                        if k == 0 {
                            assert(has_entry_valued(summary_section, cutout_key(
                                primal_label(lv),
                                0,
                            ), primal_value(lv, 0)));
                        } else if k == 1 {
                            assert(has_entry_valued(summary_section, cutout_key(
                                primal_label(lv),
                                1,
                            ), primal_value(lv, 1)));
                        } else if k == 2 {
                            assert(has_entry_valued(summary_section, cutout_key(
                                primal_label(lv),
                                2,
                            ), primal_value(lv, 2)));
                        } else if k == 3 {
                            assert(has_entry_valued(summary_section, cutout_key(
                                primal_label(lv),
                                3,
                            ), primal_value(lv, 3)));
                        } else if k == 4 {
                            assert(has_entry_valued(summary_section, cutout_key(
                                primal_label(lv),
                                4,
                            ), primal_value(lv, 4)));
                        } else {
                            assert(has_entry_valued(summary_section, cutout_key(
                                primal_label(lv),
                                5,
                            ), primal_value(lv, 5)));
                        }
                    }
                    // older lines' claims: kept, or escaped to this line
                    assert forall|li2: int, k: int|
                        #![trigger ls[li2], cutout_suffix(k)]
                        location <= li2 < li + 1 && 0 <= k < 6 && primal_line_at(
                            ls[li2],
                        ) implies cutout_claim(ls, location as int, summary_section, li2, k) by {
                        if li2 < li {
                            assert(cutout_claim(ls, location as int, old_sum, li2, k));
                            if has_entry_valued(
                                old_sum,
                                cutout_key(primal_label(ls[li2]), k),
                                primal_value(ls[li2], k),
                            ) {
                                let kk = cutout_key(primal_label(ls[li2]), k);
                                if kk == k0 || kk == k1 || kk == k2 || kk == k3 || kk == k4
                                    || kk == k5 {
                                    assert(exists|li3: int, k3x: int|
                                        #![trigger cutout_key(primal_label(ls[li3]), k3x)]
                                        li2 < li3 && location <= li3 < location + 9 && li3
                                            < ls.len() && primal_line_at(ls[li3]) && 0 <= k3x
                                            < 6 && cutout_key(primal_label(ls[li3]), k3x)
                                            == kk) by {
                                        if kk == k0 {
                                            assert(cutout_key(primal_label(ls[li as int]), 0)
                                                == kk);
                                        } else if kk == k1 {
                                            assert(cutout_key(primal_label(ls[li as int]), 1)
                                                == kk);
                                        } else if kk == k2 {
                                            assert(cutout_key(primal_label(ls[li as int]), 2)
                                                == kk);
                                        } else if kk == k3 {
                                            assert(cutout_key(primal_label(ls[li as int]), 3)
                                                == kk);
                                        } else if kk == k4 {
                                            assert(cutout_key(primal_label(ls[li as int]), 4)
                                                == kk);
                                        } else {
                                            assert(cutout_key(primal_label(ls[li as int]), 5)
                                                == kk);
                                        }
                                    }
                                } else {
                                    assert(has_entry_valued(
                                        summary_section,
                                        kk,
                                        primal_value(ls[li2], k),
                                    ));
                                }
                            }
                        }
                    }
                }
            },
            None => {
                proof {
                    assert(ls[li as int] == text_array@[li as int]@);
                    assert(!primal_line_at(lv));
                    assert forall|li2: int, k: int|
                        #![trigger ls[li2], cutout_suffix(k)]
                        location <= li2 < li + 1 && 0 <= k < 6 && primal_line_at(
                            ls[li2],
                        ) implies cutout_claim(ls, location as int, summary_section, li2, k) by {
                        if li2 < li {
                        }
                    }
                }
            },
        }
        li += 1;
    }
    // the total-loads count, captured from the totals line
    let ghost pre_total = summary_section;
    set_entry_keeping(&mut summary_section, "total_loads".to_owned(), total_loads);
    proof {
        assert(has_entry_valued(
            summary_section,
            "total_loads"@,
            spec_first_value_run(totals_line),
        ));
        let te = choose|te: int|
            0 <= te < summary_section.entries@.len() && (
            #[trigger] summary_section.entries@[te]).0@ == "total_loads"@
                && summary_section.entries@[te].1@ == spec_first_value_run(totals_line);
        assert(summary_section.entry_keys()[te] == "total_loads"@);
        assert(summary_section.entry_keys().contains("total_loads"@));
        assert forall|li2: int, k: int|
            #![trigger ls[li2], cutout_suffix(k)]
            first_pref_line(ls, "Weekly Cutout Value"@, 0) <= li2 < first_pref_line(
                ls,
                "Weekly Cutout Value"@,
                0,
            ) + 9 && 0 <= k < 6 && li2 < ls.len() && primal_line_at(ls[li2]) implies cutout_claim(
            ls,
            first_pref_line(ls, "Weekly Cutout Value"@, 0),
            summary_section,
            li2,
            k,
        ) by {
            assert(cutout_claim(
                ls,
                first_pref_line(ls, "Weekly Cutout Value"@, 0),
                pre_total,
                li2,
                k,
            ));
            if has_entry_valued(
                pre_total,
                cutout_key(primal_label(ls[li2]), k),
                primal_value(ls[li2], k),
            ) {
                lemma_cutout_key_not_total(primal_label(ls[li2]), k);
                assert(has_entry_valued(
                    summary_section,
                    cutout_key(primal_label(ls[li2]), k),
                    primal_value(ls[li2], k),
                ));
            }
        }
    }

    // quality breakdown: each window line either matches or is a
    // per-record defect, skipped
    let mut quality_section = USDADataPackageSection::new(report_date);
    quality_section.independent.push(report_date.format_iso());
    let anchor = match find_line_starts_with(&text_array, "Quality breakdown:") {
        Some(line) => {
            proof {
                assert(spec_starts_with(ls[line as int], "Quality breakdown:"@));
                assert forall|j: int|
                    0 <= j < line implies !spec_starts_with(
                    #[trigger] ls[j],
                    "Quality breakdown:"@,
                ) by {
                    assert(ls[j] == text_array@[j]@);
                }
                lemma_first_pref_is(ls, "Quality breakdown:"@, 0, line as int);
                assert(lmx_quality_anchor(ls) == line as int);
            }
            line
        },
        None => match find_line_starts_with(&text_array, "TOTAL LOADS") {
            Some(line) => {
                proof {
                    assert forall|j: int|
                        0 <= j < ls.len() implies !spec_starts_with(
                        #[trigger] ls[j],
                        "Quality breakdown:"@,
                    ) by {
                        assert(ls[j] == text_array@[j]@);
                    }
                    lemma_first_pref_none(ls, "Quality breakdown:"@, 0);
                    assert(spec_starts_with(ls[line as int], "TOTAL LOADS"@));
                    assert forall|j: int|
                        0 <= j < line implies !spec_starts_with(
                        #[trigger] ls[j],
                        "TOTAL LOADS"@,
                    ) by {
                        assert(ls[j] == text_array@[j]@);
                    }
                    lemma_first_pref_is(ls, "TOTAL LOADS"@, 0, line as int);
                    assert(lmx_quality_anchor(ls) == line as int);
                }
                line
            },
            None => {
                proof {
                    assert forall|j: int|
                        0 <= j < ls.len() implies !spec_starts_with(
                        #[trigger] ls[j],
                        "TOTAL LOADS"@,
                    ) by {
                        assert(ls[j] == text_array@[j]@);
                    }
                    lemma_first_pref_none(ls, "TOTAL LOADS"@, 0);
                    // yet the totals stage found a totals line: a line
                    // opening with the primary heading also opens with the
                    // shorter one, a contradiction
                    assert(lmx_totals_anchor(ls) < ls.len());
                    lemma_first_pref_props(ls, "TOTAL LOADS OF PRODUCT REPORTED"@, 0);
                    let li = first_pref_line(ls, "TOTAL LOADS OF PRODUCT REPORTED"@, 0);
                    assert(li < ls.len());
                    let l = ls[li];
                    reveal_strlit("TOTAL LOADS OF PRODUCT REPORTED");
                    reveal_strlit("TOTAL LOADS");
                    assert(l.subrange(0, 31) == "TOTAL LOADS OF PRODUCT REPORTED"@);
                    assert(l.subrange(0, 11) =~= l.subrange(0, 31).subrange(0, 11));
                    assert("TOTAL LOADS OF PRODUCT REPORTED"@.subrange(0, 11) =~= "TOTAL LOADS"@);
                    assert(spec_starts_with(l, "TOTAL LOADS"@));
                    assert(false);
                }
                return Err("Failed to locate quality section location".to_owned());
            },
        },
    };
    if nlines - anchor < 6 {
        return Err("Quality section is truncated.".to_owned());
    }
    proof {
        assert(lmx_stage_quality(text@));
    }
    let location = anchor + 1;
    let mut li = location;
    while li < location + 5
        invariant
            nlines == text_array@.len(),
            location + 5 <= nlines,
            location <= li <= location + 5,
            quality_section.wf(),
            quality_section.report_date == report_date,
            quality_section.independent@.len() == 1,
            quality_section.independent@[0]@ == report_date.spec_iso(),
        decreases location + 5 - li,
    {
        match match_label_value(text_array[li].as_slice(), LabelClass::Letters, 1) {
            Some((label, value)) => {
                quality_section.set_entry(label, value);
            },
            None => {
                // a non-matching line is a per-record defect: skipped,
                // processing continues
            },
        }
        li += 1;
    }

    // sales type breakdown
    let mut sales_section = USDADataPackageSection::new(report_date);
    sales_section.independent.push(report_date.format_iso());
    let anchor = match find_sales_anchor(&text_array) {
        Some(line) => {
            proof {
                assert(starts_sales(ls[line as int]));
                assert forall|j: int| 0 <= j < line implies !starts_sales(#[trigger] ls[j]) by {
                    assert(ls[j] == text_array@[j]@);
                }
                lemma_first_sales_is(ls, 0, line as int);
            }
            line
        },
        None => {
            proof {
                assert forall|j: int|
                    0 <= j < ls.len() implies !starts_sales(#[trigger] ls[j]) by {
                    assert(ls[j] == text_array@[j]@);
                }
                lemma_first_sales_none(ls, 0);
            }
            return Err("Failed to locate sales section".to_owned());
        },
    };
    if nlines - anchor < 5 {
        return Err("Sales section is truncated.".to_owned());
    }
    proof {
        assert(lmx_stage_sales(text@));
    }
    let location = anchor + 1;
    let mut li = location;
    while li < location + 4
        invariant
            nlines == text_array@.len(),
            location + 4 <= nlines,
            location <= li <= location + 4,
            sales_section.wf(),
            sales_section.report_date == report_date,
            sales_section.independent@.len() == 1,
            sales_section.independent@[0]@ == report_date.spec_iso(),
        decreases location + 4 - li,
    {
        match match_label_value(
            text_array[li].as_slice(),
            LabelClass::LettersDigitsSlashDash,
            2,
        ) {
            Some((label, value)) => {
                sales_section.set_entry(label, value);
            },
            None => {
                // a non-matching line is a per-record defect: skipped,
                // processing continues
            },
        }
        li += 1;
    }

    // destination breakdown (optional section)
    let mut destination_section_opt: Option<USDADataPackageSection> = None;
    let ghost mut has_dest = false;
    match find_line_starts_with(&text_array, "Destination breakdown:") {
        Some(anchor) => {
            proof {
                has_dest = true;
                assert(spec_starts_with(ls[anchor as int], "Destination breakdown:"@));
                assert forall|j: int|
                    0 <= j < anchor implies !spec_starts_with(
                    #[trigger] ls[j],
                    "Destination breakdown:"@,
                ) by {
                    assert(ls[j] == text_array@[j]@);
                }
                lemma_first_pref_is(ls, "Destination breakdown:"@, 0, anchor as int);
            }
            if nlines - anchor < 4 {
                return Err("Destination section is truncated.".to_owned());
            }
            let location = anchor + 1;
            let mut destination_section = USDADataPackageSection::new(report_date);
            destination_section.independent.push(report_date.format_iso());
            let mut li = location;
            while li < location + 3
                invariant
                    nlines == text_array@.len(),
                    location + 3 <= nlines,
                    location <= li <= location + 3,
                    destination_section.wf(),
                    destination_section.report_date == report_date,
                    destination_section.independent@.len() == 1,
                    destination_section.independent@[0]@ == report_date.spec_iso(),
                decreases location + 3 - li,
            {
                match match_label_value(text_array[li].as_slice(), LabelClass::Letters, 1) {
                    Some((label, value)) => {
                        destination_section.set_entry(label, value);
                    },
                    None => {
                        // a non-matching line is a per-record defect:
                        // skipped, processing continues
                    },
                }
                li += 1;
            }
            destination_section_opt = Some(destination_section);
        },
        None => {
            proof {
                assert forall|j: int|
                    0 <= j < ls.len() implies !spec_starts_with(
                    #[trigger] ls[j],
                    "Destination breakdown:"@,
                ) by {
                    assert(ls[j] == text_array@[j]@);
                }
                lemma_first_pref_none(ls, "Destination breakdown:"@, 0);
            }
        },
    }
    proof {
        assert(has_dest <==> first_pref_line(ls, "Destination breakdown:"@, 0) < ls.len());
        assert(has_dest <==> destination_section_opt is Some);
        assert(lmx_stage_dest(text@));
    }

    // delivery period breakdown (optional section)
    let mut delivery_section_opt: Option<USDADataPackageSection> = None;
    let ghost mut has_del = false;
    match find_line_starts_with(&text_array, "Delivery period breakdown:") {
        Some(anchor) => {
            proof {
                has_del = true;
                assert(spec_starts_with(ls[anchor as int], "Delivery period breakdown:"@));
                assert forall|j: int|
                    0 <= j < anchor implies !spec_starts_with(
                    #[trigger] ls[j],
                    "Delivery period breakdown:"@,
                ) by {
                    assert(ls[j] == text_array@[j]@);
                }
                lemma_first_pref_is(ls, "Delivery period breakdown:"@, 0, anchor as int);
            }
            if nlines - anchor < 5 {
                return Err("Delivery section is truncated.".to_owned());
            }
            let location = anchor + 1;
            let mut delivery_section = USDADataPackageSection::new(report_date);
            delivery_section.independent.push(report_date.format_iso());
            let mut li = location;
            while li < location + 4
                invariant
                    nlines == text_array@.len(),
                    location + 4 <= nlines,
                    location <= li <= location + 4,
                    delivery_section.wf(),
                    delivery_section.report_date == report_date,
                    delivery_section.independent@.len() == 1,
                    delivery_section.independent@[0]@ == report_date.spec_iso(),
                decreases location + 4 - li,
            {
                match match_label_value(text_array[li].as_slice(), LabelClass::LettersDigitsDash, 1)
                {
                    Some((label, value)) => {
                        delivery_section.set_entry(label, value);
                    },
                    None => {
                        // a non-matching line is a per-record defect:
                        // skipped, processing continues
                    },
                }
                li += 1;
            }
            delivery_section_opt = Some(delivery_section);
        },
        None => {
            proof {
                assert forall|j: int|
                    0 <= j < ls.len() implies !spec_starts_with(
                    #[trigger] ls[j],
                    "Delivery period breakdown:"@,
                ) by {
                    assert(ls[j] == text_array@[j]@);
                }
                lemma_first_pref_none(ls, "Delivery period breakdown:"@, 0);
            }
        },
    }
    proof {
        assert(has_del <==> first_pref_line(ls, "Delivery period breakdown:"@, 0) < ls.len());
        assert(has_del <==> delivery_section_opt is Some);
        assert(lmxb463_document_ok(text@));
    }

    // assemble the package
    let ghost rd = report_date;
    let ghost summary_rec = summary_section;
    let mut sections: Vec<(String, Vec<USDADataPackageSection>)> = Vec::new();
    let mut one: Vec<USDADataPackageSection> = Vec::new();
    one.push(summary_section);
    sections.push(("summary".to_owned(), one));
    let mut one: Vec<USDADataPackageSection> = Vec::new();
    one.push(quality_section);
    sections.push(("quality".to_owned(), one));
    let mut one: Vec<USDADataPackageSection> = Vec::new();
    one.push(sales_section);
    sections.push(("sales_type".to_owned(), one));
    if let Some(destination_section) = destination_section_opt {
        let mut one: Vec<USDADataPackageSection> = Vec::new();
        one.push(destination_section);
        sections.push(("destination".to_owned(), one));
    }
    if let Some(delivery_section) = delivery_section_opt {
        let mut one: Vec<USDADataPackageSection> = Vec::new();
        one.push(delivery_section);
        sections.push(("delivery".to_owned(), one));
    }
    let structure = USDADataPackage { name: "LM_XB463".to_owned(), sections };
    proof {
        reveal_strlit("summary");
        reveal_strlit("quality");
        reveal_strlit("sales_type");
        reveal_strlit("destination");
        reveal_strlit("delivery");
        assert("summary"@[0] == 's' && "summary"@[1] == 'u');
        assert("quality"@[0] == 'q');
        assert("sales_type"@[0] == 's' && "sales_type"@[1] == 'a');
        assert("destination"@[0] == 'd' && "destination"@[1] == 'e' && "destination"@[2] == 's');
        assert("delivery"@[0] == 'd' && "delivery"@[1] == 'e' && "delivery"@[2] == 'l');
        assert(structure.wf());
        assert(structure.section_names()[0] == "summary"@);
        assert(structure.section_names()[1] == "quality"@);
        assert(structure.section_names()[2] == "sales_type"@);
        assert(lmxb463_package_shape(structure, rd));
        assert(lmx_report_date(text@) == Some(rd));
        // the optional sections stand exactly when their anchors do
        if has_dest {
            assert(structure.section_names()[3] == "destination"@);
            assert(structure.section_names().contains("destination"@));
        } else {
            assert forall|ix: int|
                0 <= ix < structure.section_names().len() implies #[trigger] structure.section_names()[ix]
                != "destination"@ by {
                if ix == 3 {
                    assert(structure.section_names()[ix] == "delivery"@);
                }
            }
            if structure.section_names().contains("destination"@) {
                let ix = choose|ix: int|
                    0 <= ix < structure.section_names().len() && structure.section_names()[ix]
                        == "destination"@;
                assert(false);
            }
        }
        if has_del {
            if has_dest {
                assert(structure.section_names()[4] == "delivery"@);
            } else {
                assert(structure.section_names()[3] == "delivery"@);
            }
            assert(structure.section_names().contains("delivery"@));
        } else {
            assert forall|ix: int|
                0 <= ix < structure.section_names().len() implies #[trigger] structure.section_names()[ix]
                != "delivery"@ by {
                if ix == 3 {
                    assert(structure.section_names()[ix] == "destination"@);
                }
            }
            if structure.section_names().contains("delivery"@) {
                let ix = choose|ix: int|
                    0 <= ix < structure.section_names().len() && structure.section_names()[ix]
                        == "delivery"@;
                assert(false);
            }
        }
        assert(lmxb463_sections_follow_anchors(text@, structure));
        // every summary record carries the captured total-loads count
        assert(lmx_totals_anchor(ls) < ls.len());
        assert(totals_line == ls[lmx_totals_anchor(ls)]);
        assert forall|i: int, j: int|
            0 <= i < structure.sections@.len() && structure.sections@[i].0@ == "summary"@ && 0 <= j
                < structure.sections@[i].1@.len() implies has_entry_valued(
            #[trigger] structure.sections@[i].1@[j],
            "total_loads"@,
            spec_first_value_run(ls[lmx_totals_anchor(ls)]),
        ) by {
            if i != 0 {
                assert(structure.section_names()[i] != "summary"@);
                assert(false);
            }
            assert(structure.sections@[0].1@[j] == summary_rec);
            assert(has_entry_valued(summary_rec, "total_loads"@, spec_first_value_run(totals_line)));
        }
        assert(lmxb463_summary_total(text@, structure));
        assert(lmxb463_summary_cutouts(text@, structure)) by {
            let w = first_pref_line(ls, "Weekly Cutout Value"@, 0);
            assert forall|i: int, j: int, li: int, k: int|
                #![trigger structure.sections@[i].1@[j], ls[li], cutout_suffix(k)]
                0 <= i < structure.sections@.len() && structure.sections@[i].0@ == "summary"@
                    && 0 <= j < structure.sections@[i].1@.len() && w <= li < w + 9 && li
                    < ls.len() && primal_line_at(ls[li]) && 0 <= k < 6 implies cutout_claim(
                ls,
                w,
                structure.sections@[i].1@[j],
                li,
                k,
            ) by {
                if i != 0 {
                    assert(structure.section_names()[i] != "summary"@);
                    assert(false);
                }
                assert(structure.sections@[0].1@[j] == summary_rec);
                assert(cutout_claim(ls, w, summary_rec, li, k));
            }
        }
    }
    Ok(structure)
}

/// Ten to the `k`, as a machine number.
fn pow10_u64(k: usize) -> (r: u64)
    requires
        k <= 15,
    ensures
        r == pow10(k as nat),
{
    proof {
        assert(pow10(15) == 0x38d7ea4c68000) by {
            reveal_with_fuel(pow10, 17);
        }
    }
    let mut r: u64 = 1;
    let mut i: usize = 0;
    while i < k
        invariant
            i <= k <= 15,
            r == pow10(i as nat),
            pow10(15) == 0x38d7ea4c68000,
        decreases k - i,
    {
        proof {
            lemma_pow10_mono((i + 1) as nat, 15);
        }
        r = r * 10;
        i += 1;
    }
    r
}

/// A decimal price field stands at `p`: one to seven integer digits, a
/// point, and one to four fraction digits.
pub open spec fn price_num_at(l: Seq<char>, p: int) -> bool {
    let a = digit_run(l, p);
    let f = digit_run(l, p + a + 1);
    &&& 0 <= p <= l.len()
    &&& 1 <= a <= 7
    &&& p + a < l.len() && l[p + a] == '.'
    &&& 1 <= f <= 4
}

/// The position just past the field at `p`.
pub open spec fn price_num_end(l: Seq<char>, p: int) -> int {
    let a = digit_run(l, p);
    p + a + 1 + digit_run(l, p + a + 1)
}

/// The field's fraction width.
pub open spec fn price_num_scale(l: Seq<char>, p: int) -> nat {
    digit_run(l, p + digit_run(l, p) + 1) as nat
}

/// The field's value, scaled by ten to the fraction width.
pub open spec fn price_num_scaled(l: Seq<char>, p: int) -> int {
    let a = digit_run(l, p);
    let f = digit_run(l, p + a + 1);
    dec_value(l.subrange(p, p + a)) * pow10(f as nat) + dec_value(
        l.subrange(p + a + 1, p + a + 1 + f),
    )
}

/// A decimal number read from the line at `i`: an integer run of one to
/// seven digits, a point, and a fraction run of one to four digits. The
/// result is exactly the field's value scaled by ten to the fraction
/// width, with that width and the field's end.
fn parse_price_number(line: &[char], i: usize) -> (r: Option<(u64, usize, usize)>)
    requires
        i <= line@.len(),
    ensures
        r is Some <==> price_num_at(line@, i as int),
        match r {
            Some(t) => t.0 < 100000000000u64 && t.0 as int == price_num_scaled(line@, i as int)
                && t.1 == price_num_scale(line@, i as int) && t.2 as int == price_num_end(
                line@,
                i as int,
            ) && i < t.2 <= line@.len(),
            None => true,
        },
{
    let n = line.len();
    let a = digit_run_exec(line, i);
    if a < 1 || a > 7 {
        return None;
    }
    if i + a >= n || line[i + a] != '.' {
        return None;
    }
    let fs = i + a + 1;
    let f = digit_run_exec(line, fs);
    if f < 1 || f > 4 {
        return None;
    }
    proof {
        lemma_digit_run_bounds(line@, i as int);
        lemma_digit_run_bounds(line@, fs as int);
        let ints = line@.subrange(i as int, i + a);
        assert(all_digits(ints)) by {
            assert(forall|k: int| 0 <= k < ints.len() ==> #[trigger] ints[k] == line@[i + k]);
        }
        let fracs = line@.subrange(fs as int, fs + f);
        assert(all_digits(fracs)) by {
            assert(forall|k: int| 0 <= k < fracs.len() ==> #[trigger] fracs[k] == line@[fs + k]);
        }
    }
    let iv = match parse_u32_range(line, i, i + a) {
        Some(v) => v,
        None => {
            proof {
                assert(false);
            }
            return None;
        },
    };
    let fv = match parse_u32_range(line, fs, fs + f) {
        Some(v) => v,
        None => {
            proof {
                assert(false);
            }
            return None;
        },
    };
    proof {
        let ints = line@.subrange(i as int, i + a);
        lemma_dec_value_bound(ints);
        lemma_pow10_mono(ints.len() as nat, 7);
        assert(pow10(7) == 10000000) by {
            reveal_with_fuel(pow10, 9);
        }
        let fracs = line@.subrange(fs as int, fs + f);
        lemma_dec_value_bound(fracs);
        lemma_pow10_mono(fracs.len() as nat, 4);
        assert(pow10(4) == 10000) by {
            reveal_with_fuel(pow10, 6);
        }
    }
    let scale = pow10_u64(f);
    proof {
        lemma_pow10_mono(f as nat, 4);
        lemma_pow10_pos(f as nat);
        assert(pow10(4) == 10000) by {
            reveal_with_fuel(pow10, 6);
        }
        assert(iv < 10000000);
        assert(fv < 10000);
        assert(scale <= 10000);
        assert((iv as int) * (scale as int) <= 9999999int * 10000int) by (nonlinear_arith)
            requires
                0 <= (iv as int) && (iv as int) <= 9999999,
                0 <= (scale as int) && (scale as int) <= 10000,
        ;
    }
    let value: u64 = (iv as u64) * scale + (fv as u64);
    proof {
        assert(value as int == price_num_scaled(line@, i as int));
        assert(price_num_at(line@, i as int));
    }
    Some((value, f, fs + f))
}

/// A rendered price: digits with at most one decimal point.
pub open spec fn price_text(s: Seq<char>) -> bool {
    s.len() >= 1 && forall|i: int| 0 <= i < s.len() ==> (is_digit(#[trigger] s[i]) || s[i] == '.')
}

/// The fraction's digits with trailing zeros dropped.
pub open spec fn spec_trim_zeros(fr: int, scale: nat) -> Seq<char>
    decreases fr,
{
    if fr > 0 && fr % 10 == 0 {
        spec_trim_zeros(
            fr / 10,
            if scale == 0 {
                0
            } else {
                (scale - 1) as nat
            },
        )
    } else {
        dec_digits_pad(fr as nat, scale)
    }
}

/// The rendering of a scaled decimal value: the integer part, then, for a
/// non-zero fraction, a point and the fraction with trailing zeros
/// dropped.
pub open spec fn spec_price_render(value: int, scale: nat) -> Seq<char> {
    let ip = value / pow10(scale);
    let fr = value % pow10(scale);
    if fr == 0 {
        dec_digits(ip as nat)
    } else {
        dec_digits(ip as nat) + seq!['.'] + spec_trim_zeros(fr, scale)
    }
}

/// Render a scaled decimal value, dropping trailing fraction zeros (and the
/// point itself when the fraction is zero).
fn format_price(value: u64, scale: usize) -> (s: String)
    requires
        scale <= 5,
        value < 0x8000000000000000u64,
    ensures
        s@ == spec_price_render(value as int, scale as nat),
        price_text(s@),
{
    let p = pow10_u64(scale);
    proof {
        lemma_pow10_pos(scale as nat);
    }
    let int_part = value / p;
    let mut frac = value % p;
    let mut digits = scale;
    let ghost fr0 = frac as int;
    proof {
        assert(frac < pow10(digits as nat));
    }
    while frac > 0 && frac % 10 == 0
        invariant
            digits <= 5,
            frac < pow10(digits as nat),
            (frac == 0) == (fr0 == 0),
            spec_trim_zeros(fr0, scale as nat) == spec_trim_zeros(frac as int, digits as nat),
        decreases frac,
    {
        proof {
            if digits == 0 {
                assert(pow10(0) == 1);
                assert(false);
            }
            assert(pow10(digits as nat) == 10 * pow10((digits - 1) as nat));
        }
        digits = digits - 1;
        frac = frac / 10;
    }
    proof {
        assert(spec_trim_zeros(frac as int, digits as nat) == dec_digits_pad(
            frac as nat,
            digits as nat,
        ));
    }
    let mut s = String::new();
    push_u64(&mut s, int_part);
    proof {
        crate::text::lemma_dec_digits_shape(int_part as nat);
    }
    if frac > 0 {
        s.push('.');
        push_u64_pad(&mut s, frac, digits);
        proof {
            crate::text::lemma_dec_digits_pad_shape(frac as nat, digits as nat);
            assert(s@ =~= spec_price_render(value as int, scale as nat));
            assert forall|i: int| 0 <= i < s@.len() implies (is_digit(#[trigger] s@[i]) || s@[i]
                == '.') by {
                let d0 = dec_digits(int_part as nat);
                if i < d0.len() {
                    assert(s@[i] == d0[i]);
                } else if i > d0.len() {
                    assert(s@[i] == dec_digits_pad(frac as nat, digits as nat)[i - d0.len() - 1]);
                }
            }
        }
    } else {
        proof {
            assert(fr0 == 0);
            assert(s@ =~= spec_price_render(value as int, scale as nat));
            assert forall|i: int| 0 <= i < s@.len() implies (is_digit(#[trigger] s@[i]) || s@[i]
                == '.') by {
                assert(s@[i] == dec_digits(int_part as nat)[i]);
            }
        }
    }
    s
}

/// The letter run's length is never negative.
pub proof fn lemma_alpha_run_nonneg(s: Seq<char>, i: int)
    ensures
        alpha_run(s, i) >= 0,
    decreases s.len() - i,
{
    if 0 <= i < s.len() && is_ascii_letter(s[i]) {
        lemma_alpha_run_nonneg(s, i + 1);
    }
}

/// End of the price line's region label: letter words joined by single
/// spaces, from the letter start at `j`.
pub open spec fn region_end(l: Seq<char>, j: int) -> int
    decreases l.len() - j,
{
    if j < 0 || j >= l.len() {
        j
    } else {
        let a = alpha_run(l, j);
        if a >= 0 && j + a < l.len() && l[j + a] == ' ' && j + a + 1 < l.len()
            && is_ascii_letter(l[j + a + 1]) {
            region_end(l, j + a + 1)
        } else {
            j + a
        }
    }
}

fn region_end_exec(line: &[char], j0: usize) -> (re: usize)
    requires
        j0 < line@.len(),
        is_ascii_letter(line@[j0 as int]),
    ensures
        re as int == region_end(line@, j0 as int),
        j0 < re <= line@.len(),
    decreases line@.len() - j0,
{
    let n = line.len();
    let a = alpha_run_exec(line, j0);
    let e = j0 + a;
    proof {
        lemma_alpha_run_nonneg(line@, j0 + 1);
        assert(a >= 1);
    }
    if e < n && line[e] == ' ' && e + 1 < n && (('A' <= line[e + 1] && line[e + 1] <= 'Z') || (
    'a' <= line[e + 1] && line[e + 1] <= 'z')) {
        region_end_exec(line, e + 1)
    } else {
        e
    }
}

/// The whole price line matches: a region label from the line's first
/// character, at least one space, and a left bid.
pub open spec fn price_line_at(l: Seq<char>) -> bool {
    let re = region_end(l, 0);
    &&& l.len() > 0
    &&& is_ascii_letter(l[0])
    &&& space_run(l, re) >= 1
    &&& price_num_at(l, re + space_run(l, re))
}

/// The line's region label.
pub open spec fn price_line_region(l: Seq<char>) -> Seq<char> {
    l.subrange(0, region_end(l, 0))
}

/// The line's bid as an exactly scaled decimal (numerator, fraction
/// width): the left bid, or, when a second bid directly adjoins it, the
/// exact mean of the two — kept exact by widening the fraction when the
/// sum is odd.
pub open spec fn price_line_bid(l: Seq<char>) -> (int, nat) {
    let re = region_end(l, 0);
    let v = re + space_run(l, re);
    let lv = price_num_scaled(l, v);
    let lf = price_num_scale(l, v);
    let w = price_num_end(l, v);
    if price_num_at(l, w) {
        let rv = price_num_scaled(l, w);
        let rf = price_num_scale(l, w);
        let c = if lf > rf {
            lf
        } else {
            rf
        };
        let total = lv * pow10((c - lf) as nat) + rv * pow10((c - rf) as nat);
        if total % 2 == 0 {
            (total / 2, c)
        } else {
            (total * 5, (c + 1) as nat)
        }
    } else {
        (lv, lf)
    }
}

/// Match one commodity price line: the region label at the line's start,
/// then spaces, a left bid, and optionally a directly adjoining right bid.
/// The bid entry renders the left value, or the exact mean of the two
/// when both are present.
fn match_price_line(line: &[char]) -> (r: Option<(String, String)>)
    ensures
        r is Some <==> price_line_at(line@),
        match r {
            Some(lv) => lv.0@ == price_line_region(line@) && lv.1@ == spec_price_render(
                price_line_bid(line@).0,
                price_line_bid(line@).1,
            ) && price_text(lv.1@),
            None => true,
        },
{
    let n = line.len();
    if n == 0 {
        return None;
    }
    let c0 = line[0];
    if !(('A' <= c0 && c0 <= 'Z') || ('a' <= c0 && c0 <= 'z')) {
        return None;
    }
    let label_end = region_end_exec(line, 0);
    let sr = space_run_exec(line, label_end);
    if sr == 0 {
        return None;
    }
    let v = label_end + sr;
    let (left, lf, after_left) = match parse_price_number(line, v) {
        Some(t) => t,
        None => {
            return None;
        },
    };
    let right_opt = parse_price_number(line, after_left);
    let region = string_from_range(line, 0, label_end);
    proof {
        assert(region@ =~= price_line_region(line@));
        assert(price_line_at(line@));
    }
    let bid: String = match right_opt {
        None => format_price(left, lf),
        Some((right, rf, _)) => {
            // exact decimal mean of the two bids
            let common: usize = if lf > rf {
                lf
            } else {
                rf
            };
            let pl = pow10_u64(common - lf);
            let pr = pow10_u64(common - rf);
            proof {
                lemma_pow10_mono((common - lf) as nat, 4);
                lemma_pow10_mono((common - rf) as nat, 4);
                assert(pow10(4) == 10000) by {
                    reveal_with_fuel(pow10, 6);
                }
                assert((left as int) * (pl as int) < 100000000000int * 10001int)
                    by (nonlinear_arith)
                    requires
                        0 <= (left as int) && (left as int) < 100000000000int,
                        0 <= (pl as int) && (pl as int) <= 10000int,
                ;
                assert((right as int) * (pr as int) < 100000000000int * 10001int)
                    by (nonlinear_arith)
                    requires
                        0 <= (right as int) && (right as int) < 100000000000int,
                        0 <= (pr as int) && (pr as int) <= 10000int,
                ;
            }
            let la: u64 = left * pl;
            let ra: u64 = right * pr;
            let total: u64 = la + ra;
            proof {
                assert(total as int == price_line_bid(line@).0 * 2 || total as int
                    == price_line_bid(line@).0 / 5 * 2 || true);
            }
            if total % 2 == 0 {
                proof {
                    assert((total / 2) as int == price_line_bid(line@).0);
                    assert(common as nat == price_line_bid(line@).1);
                }
                format_price(total / 2, common)
            } else {
                proof {
                    assert((total * 5) as int == price_line_bid(line@).0);
                    assert((common + 1) as nat == price_line_bid(line@).1);
                }
                format_price(total * 5, common + 1)
            }
        },
    };
    Some((region, bid))
}


/// Length of the maximal letter run starting at `i`.
pub open spec fn alpha_run(s: Seq<char>, i: int) -> int
    decreases s.len() - i,
{
    if 0 <= i < s.len() && is_ascii_letter(s[i]) {
        1 + alpha_run(s, i + 1)
    } else {
        0
    }
}

/// Length of the maximal space run starting at `i`.
pub open spec fn space_run(s: Seq<char>, i: int) -> int
    decreases s.len() - i,
{
    if 0 <= i < s.len() && s[i] == ' ' {
        1 + space_run(s, i + 1)
    } else {
        0
    }
}

fn alpha_run_exec(chars: &[char], i: usize) -> (r: usize)
    requires
        i <= chars@.len(),
    ensures
        r == alpha_run(chars@, i as int),
        i + r <= chars@.len(),
    decreases chars@.len() - i,
{
    let n = chars.len();
    let mut j = i;
    while j < n && (('A' <= chars[j] && chars[j] <= 'Z') || ('a' <= chars[j] && chars[j] <= 'z'))
        invariant
            i <= j <= n == chars@.len(),
            alpha_run(chars@, i as int) == (j - i) + alpha_run(chars@, j as int),
        decreases n - j,
    {
        j += 1;
    }
    proof {
        assert(alpha_run(chars@, j as int) == 0);
    }
    j - i
}

fn space_run_exec(chars: &[char], i: usize) -> (r: usize)
    requires
        i <= chars@.len(),
    ensures
        r == space_run(chars@, i as int),
        i + r <= chars@.len(),
    decreases chars@.len() - i,
{
    let n = chars.len();
    let mut j = i;
    while j < n && chars[j] == ' '
        invariant
            i <= j <= n == chars@.len(),
            space_run(chars@, i as int) == (j - i) + space_run(chars@, j as int),
        decreases n - j,
    {
        j += 1;
    }
    proof {
        assert(space_run(chars@, j as int) == 0);
    }
    j - i
}

/// A run of letters from `j` to the boundary `e` has exactly that length.
proof fn lemma_alpha_run_value(s: Seq<char>, j: int, e: int)
    requires
        0 <= j <= e <= s.len(),
        forall|k: int| j <= k < e ==> is_ascii_letter(#[trigger] s[k]),
        e < s.len() ==> !is_ascii_letter(s[e]),
    ensures
        alpha_run(s, j) == e - j,
    decreases e - j,
{
    if j < e {
        lemma_alpha_run_value(s, j + 1, e);
    }
}

/// Every position of a letter run has letters through to the run's end.
proof fn lemma_alpha_run_bounds(s: Seq<char>, i: int)
    requires
        0 <= i <= s.len(),
    ensures
        i + alpha_run(s, i) <= s.len(),
        forall|k: int| i <= k < i + alpha_run(s, i) ==> is_ascii_letter(#[trigger] s[k]),
        i + alpha_run(s, i) < s.len() ==> !is_ascii_letter(s[i + alpha_run(s, i)]),
    decreases s.len() - i,
{
    if i < s.len() && is_ascii_letter(s[i]) {
        lemma_alpha_run_bounds(s, i + 1);
    }
}

/// A month/day/year word group stands at `i`: a word of letters, spaces,
/// the day digits, a comma, spaces, and a year run of at least four digits.
pub open spec fn month_struct(s: Seq<char>, i: int) -> bool {
    let a = alpha_run(s, i);
    let b = space_run(s, i + a);
    let d = digit_run(s, i + a + b);
    let c = space_run(s, i + a + b + d + 1);
    &&& 0 <= i <= s.len()
    &&& a >= 1
    &&& b >= 1
    &&& d >= 1
    &&& i + a + b + d < s.len() && s[i + a + b + d] == ','
    &&& c >= 1
    &&& digit_run(s, i + a + b + d + 1 + c) >= 4
}

/// The values of the group at `i`: the lower-cased month word, the day
/// number, and the year read from the first four year digits.
pub open spec fn month_values(s: Seq<char>, i: int) -> Option<(Seq<char>, u32, u32)> {
    let a = alpha_run(s, i);
    let b = space_run(s, i + a);
    let d = digit_run(s, i + a + b);
    let c = space_run(s, i + a + b + d + 1);
    let ys = i + a + b + d + 1 + c;
    if !month_struct(s, i) {
        None
    } else {
        match (spec_parse_u32(s.subrange(i + a + b, i + a + b + d)), spec_parse_u32(
            s.subrange(ys, ys + 4),
        )) {
            (Some(dv), Some(yv)) => Some((lower_seq(s.subrange(i, i + a)), dv, yv)),
            _ => None,
        }
    }
}

/// Index of the first month/day/year word group at or after `i`, or the
/// line length when none stands anywhere.
pub open spec fn first_month(s: Seq<char>, i: int) -> int
    decreases s.len() - i,
{
    if i < 0 || i >= s.len() {
        s.len() as int
    } else if month_struct(s, i) {
        i
    } else {
        first_month(s, i + 1)
    }
}

proof fn lemma_first_month_is(s: Seq<char>, from: int, i: int)
    requires
        0 <= from <= i < s.len(),
        month_struct(s, i),
        forall|j: int| from <= j < i ==> !#[trigger] month_struct(s, j),
    ensures
        first_month(s, from) == i,
    decreases i - from,
{
    if from < i {
        lemma_first_month_is(s, from + 1, i);
    }
}

proof fn lemma_first_month_none(s: Seq<char>, from: int)
    requires
        0 <= from,
        forall|j: int| from <= j < s.len() ==> !#[trigger] month_struct(s, j),
    ensures
        first_month(s, from) == s.len(),
    decreases s.len() - from,
{
    if from < s.len() {
        lemma_first_month_none(s, from + 1);
    }
}

/// The month number of a lower-cased three-letter month word.
pub open spec fn month_number(w: Seq<char>) -> Option<u32> {
    if w == "jan"@ {
        Some(1)
    } else if w == "feb"@ {
        Some(2)
    } else if w == "mar"@ {
        Some(3)
    } else if w == "apr"@ {
        Some(4)
    } else if w == "may"@ {
        Some(5)
    } else if w == "jun"@ {
        Some(6)
    } else if w == "jul"@ {
        Some(7)
    } else if w == "aug"@ {
        Some(8)
    } else if w == "sep"@ {
        Some(9)
    } else if w == "oct"@ {
        Some(10)
    } else if w == "nov"@ {
        Some(11)
    } else if w == "dec"@ {
        Some(12)
    } else {
        None
    }
}

/// The report date of a commodity bulletin: taken from the leftmost month
/// word group of the first "Dodge City, KS" line; `None` when the anchor is
/// missing, no group stands on it, the month word is no known abbreviation,
/// or the numbers form no valid calendar day.
pub open spec fn dcgr_report_date(text: Seq<char>) -> Option<Date> {
    let ls = spec_split_lines(text);
    let li = first_pref_line(ls, "Dodge City, KS"@, 0);
    if li < 0 || li >= ls.len() {
        None
    } else {
        let l = ls[li];
        let mi = first_month(l, 0);
        if mi < 0 || mi >= l.len() {
            None
        } else {
            match month_values(l, mi) {
                Some((w, dv, yv)) => match month_number(w) {
                    Some(m) => {
                        let dt = Date { year: yv, month: m, day: dv };
                        if dt.valid() {
                            Some(dt)
                        } else {
                            None
                        }
                    },
                    None => None,
                },
                None => None,
            }
        }
    }
}

/// One of the grain sections of the commodity bulletin.
/// Index of the first line at or after `i` that contains the pattern, or
/// the number of lines when none does.
pub open spec fn first_contains_line(ls: Seq<Seq<char>>, p: Seq<char>, i: int) -> int
    decreases ls.len() - i,
{
    if i < 0 || i >= ls.len() {
        ls.len() as int
    } else if spec_contains(ls[i], p) {
        i
    } else {
        first_contains_line(ls, p, i + 1)
    }
}

proof fn lemma_first_contains_is(ls: Seq<Seq<char>>, p: Seq<char>, from: int, i: int)
    requires
        0 <= from <= i < ls.len(),
        spec_contains(ls[i], p),
        forall|j: int| from <= j < i ==> !spec_contains(#[trigger] ls[j], p),
    ensures
        first_contains_line(ls, p, from) == i,
    decreases i - from,
{
    if from < i {
        lemma_first_contains_is(ls, p, from + 1, i);
    }
}

/// The grain sections, in the order the table scan fills them.
pub open spec fn grain_name(sec: int) -> Seq<char> {
    if sec == 0 {
        "wheat"@
    } else if sec == 1 {
        "corn"@
    } else if sec == 2 {
        "sorghum"@
    } else {
        "soybeans"@
    }
}

fn grain_label(sec: usize) -> (r: &'static str)
    ensures
        r@ == grain_name(sec as int),
{
    match sec {
        0 => "wheat",
        1 => "corn",
        2 => "sorghum",
        _ => "soybeans",
    }
}

/// Where the grain-table scan begins: two lines past the first line
/// containing the wheat heading (or the end, for a truncated document).
pub open spec fn dcgr_scan_start(ls: Seq<Seq<char>>) -> int {
    let w = first_contains_line(ls, "HRW WHEAT ORD US NO 1"@, 0);
    if ls.len() - w > 2 {
        w + 2
    } else {
        ls.len() as int
    }
}

/// The grain-table scan from line `loc` in section `sec`: a matching price
/// line yields one hit for the current section and the scan moves one line
/// on; a non-matching line moves three lines on into the next section, or
/// ends the scan on the last section; running out of lines before the last
/// section is the failure.
pub open spec fn scan_table(ls: Seq<Seq<char>>, loc: int, sec: int) -> Option<Seq<(int, int)>>
    decreases ls.len() + 3 - loc,
{
    if loc < 0 || loc >= ls.len() {
        if sec >= 3 {
            Some(Seq::empty())
        } else {
            None
        }
    } else if price_line_at(ls[loc]) {
        match scan_table(ls, loc + 1, sec) {
            Some(rest) => Some(seq![(sec, loc)] + rest),
            None => None,
        }
    } else if sec >= 3 {
        Some(Seq::empty())
    } else {
        scan_table(ls, loc + 3, sec + 1)
    }
}

/// The hits a seq of scan hits holds for one section, as line indices.
pub open spec fn hits_for(hits: Seq<(int, int)>, sec: int) -> Seq<int>
    decreases hits.len(),
{
    if hits.len() == 0 {
        Seq::empty()
    } else if hits.last().0 == sec {
        hits_for(hits.drop_last(), sec).push(hits.last().1)
    } else {
        hits_for(hits.drop_last(), sec)
    }
}

pub open spec fn opt_prepend(pre: Seq<(int, int)>, o: Option<Seq<(int, int)>>) -> Option<
    Seq<(int, int)>,
> {
    match o {
        Some(r) => Some(pre + r),
        None => None,
    }
}

/// The record built from one matched price line: stamped with the report
/// date and its ISO text, keyed by the line's region label, holding one
/// bid entry rendering the line's bid.
pub open spec fn dcgr_record_from_line(
    rec: USDADataPackageSection,
    l: Seq<char>,
    rd: Date,
) -> bool {
    &&& price_line_at(l)
    &&& rec.wf()
    &&& rec.report_date == rd
    &&& rec.independent@.len() == 2
    &&& rec.independent@[0]@ == rd.spec_iso()
    &&& rec.independent@[1]@ == price_line_region(l)
    &&& rec.entries@.len() == 1
    &&& rec.entries@[0].0@ == "bid"@
    &&& rec.entries@[0].1@ == spec_price_render(price_line_bid(l).0, price_line_bid(l).1)
}

/// A parsed commodity package: the report date and both anchors stood, the
/// scan succeeded, and the four grain sections hold, in scan order,
/// exactly the records of their matched price lines.
pub open spec fn dcgr110_result_ok(text: Seq<char>, p: USDADataPackage) -> bool {
    let ls = spec_split_lines(text);
    match (dcgr_report_date(text), scan_table(ls, dcgr_scan_start(ls), 0)) {
        (Some(rd), Some(hits)) => {
            &&& p.name@ == "DC_GR110"@
            &&& p.wf()
            &&& rd.valid()
            &&& !no_prefix_line(ls, "Dodge City, KS"@)
            &&& !no_containing_line(ls, "HRW WHEAT ORD US NO 1"@)
            &&& p.sections@.len() == 4
            &&& forall|sec: int|
                0 <= sec < 4 ==> (#[trigger] p.sections@[sec]).0@ == grain_name(sec)
            &&& forall|sec: int|
                0 <= sec < 4 ==> (#[trigger] p.sections@[sec]).1@.len() == hits_for(
                    hits,
                    sec,
                ).len()
            &&& forall|sec: int, k: int|
                0 <= sec < 4 && 0 <= k < hits_for(hits, sec).len() ==> dcgr_record_from_line(
                    #[trigger] p.sections@[sec].1@[k],
                    ls[hits_for(hits, sec)[k]],
                    rd,
                )
        },
        _ => false,
    }
}

/// The date line's leftmost month group parses, but its month word is no
/// known abbreviation.
pub open spec fn dcgr_month_unknown(text: Seq<char>) -> bool {
    let ls = spec_split_lines(text);
    let li = first_pref_line(ls, "Dodge City, KS"@, 0);
    &&& li < ls.len()
    &&& first_month(ls[li], 0) < ls[li].len()
    &&& match month_values(ls[li], first_month(ls[li], 0)) {
        Some((w, dv, yv)) => month_number(w) is None,
        None => false,
    }
}

/// The documented failures of the commodity parse. Each case names the one
/// message, requires every earlier stage to have passed, and ties the
/// message to the document state that produces it; the end-of-report case
/// holds exactly when the grain-table scan runs out of lines before the
/// last section.
pub open spec fn dcgr110_err_cases(text: Seq<char>, e: Seq<char>) -> bool {
    let ls = spec_split_lines(text);
    ||| (e == "Failed to locate report date line"@ && first_pref_line(ls, "Dodge City, KS"@, 0)
        >= ls.len())
    ||| (spec_starts_with(e, "Invalid month name captured: "@) && dcgr_month_unknown(text))
    ||| (e == "Failed to parse date line for report, aborting."@ && first_pref_line(
        ls,
        "Dodge City, KS"@,
        0,
    ) < ls.len() && dcgr_report_date(text) is None)
    ||| (e == "Failed to locate wheat line"@ && dcgr_report_date(text) is Some
        && no_containing_line(ls, "HRW WHEAT ORD US NO 1"@))
    ||| (spec_starts_with(e, "Failed to parse report, hit end of report early."@)
        && dcgr_report_date(text) is Some && !no_containing_line(ls, "HRW WHEAT ORD US NO 1"@)
        && scan_table(ls, dcgr_scan_start(ls), 0) is None)
}

/// The leftmost month/day/year word group of the date line, decoded: the
/// lower-cased month word, the day number, and the four-digit year.
fn scan_month_date(line: &[char]) -> (r: Option<(String, u32, u32)>)
    ensures
        match r {
            Some(t) => first_month(line@, 0) < line@.len() && month_values(
                line@,
                first_month(line@, 0),
            ) == Some((t.0@, t.1, t.2)),
            None => first_month(line@, 0) >= line@.len() || month_values(
                line@,
                first_month(line@, 0),
            ) is None,
        },
{
    let n = line.len();
    let mut i: usize = 0;
    while i < n
        invariant
            n == line@.len(),
            i <= n,
            forall|j: int| 0 <= j < i ==> !#[trigger] month_struct(line@, j),
        decreases n - i,
    {
        let c = line[i];
        if ('A' <= c && c <= 'Z') || ('a' <= c && c <= 'z') {
            let a = alpha_run_exec(line, i);
            let b = space_run_exec(line, i + a);
            let mut matched = false;
            let mut day_start: usize = 0;
            let mut d: usize = 0;
            let mut year_start: usize = 0;
            if b >= 1 {
                day_start = i + a + b;
                d = digit_run_exec(line, day_start);
                if d >= 1 && day_start + d < n && line[day_start + d] == ',' {
                    let cc = space_run_exec(line, day_start + d + 1);
                    if cc >= 1 {
                        year_start = day_start + d + 1 + cc;
                        let y = digit_run_exec(line, year_start);
                        if y >= 4 {
                            matched = true;
                        }
                    }
                }
            }
            if matched {
                proof {
                    assert(month_struct(line@, i as int));
                    lemma_first_month_is(line@, 0, i as int);
                }
                let day = match parse_u32_range(line, day_start, day_start + d) {
                    Some(v) => v,
                    None => {
                        return None;
                    },
                };
                let year = match parse_u32_range(line, year_start, year_start + 4) {
                    Some(v) => v,
                    None => {
                        return None;
                    },
                };
                let mut month = String::new();
                let mut k = i;
                while k < i + a
                    invariant
                        i <= k <= i + a,
                        i + a <= n,
                        n == line@.len(),
                        month@ == lower_seq(line@.subrange(i as int, i + a)).subrange(
                            0,
                            k - i,
                        ),
                    decreases i + a - k,
                {
                    month.push(lower_char_exec(line[k]));
                    proof {
                        let w = lower_seq(line@.subrange(i as int, i + a));
                        assert(w[k - i] == lower_char(line@[k as int]));
                        assert(month@ =~= w.subrange(0, k - i + 1));
                    }
                    k += 1;
                }
                proof {
                    let w = lower_seq(line@.subrange(i as int, i + a));
                    assert(w.subrange(0, w.len() as int) =~= w);
                }
                return Some((month, day, year));
            } else {
                // no group starts anywhere inside this letter run
                proof {
                    lemma_alpha_run_bounds(line@, i as int);
                    assert forall|j: int| i <= j < i + a implies !#[trigger] month_struct(
                        line@,
                        j,
                    ) by {
                        lemma_alpha_run_value(line@, j, i + a);
                        assert(alpha_run(line@, j) == i + a - j);
                        assert(!month_struct(line@, i as int));
                    }
                }
                i = i + a;
            }
        } else {
            proof {
                assert(alpha_run(line@, i as int) == 0);
                assert(!month_struct(line@, i as int));
            }
            i += 1;
        }
    }
    proof {
        lemma_first_month_none(line@, 0);
    }
    None
}

/// Parse the commodity text bulletin: the report date from the bulletin
/// head, then the four grain price tables scanned from two lines past the
/// wheat heading — each matched price line yields one record, keyed by its
/// region, with the bid as the left value or the exact mean of both bids.
/// The parse succeeds exactly when the date parses, the wheat heading
/// stands, and the scan reaches the last table before the text runs out.
pub fn dcgr110_text_parse(text: &str) -> (r: Result<USDADataPackage, String>)
    ensures
        r is Ok <==> (dcgr_report_date(text@) is Some && !no_containing_line(
            spec_split_lines(text@),
            "HRW WHEAT ORD US NO 1"@,
        ) && scan_table(
            spec_split_lines(text@),
            dcgr_scan_start(spec_split_lines(text@)),
            0,
        ) is Some),
        match r {
            Ok(p) => dcgr110_result_ok(text@, p),
            Err(e) => dcgr110_err_cases(text@, e@),
        },
{
    let text_array = split_lines(text);
    let nlines = text_array.len();
    let ghost ls = spec_split_lines(text@);
    proof {
        assert(ls == lines_view(text_array@));
        assert forall|j: int| 0 <= j < ls.len() implies #[trigger] ls[j] == text_array@[j]@ by {
            assert(lines_view(text_array@)[j] == text_array@[j]@);
        }
    }
    let mut structure = USDADataPackage::new("DC_GR110".to_owned());

    let location = match find_line_starts_with(&text_array, "Dodge City, KS") {
        Some(line) => {
            proof {
                assert(ls[line as int] == text_array@[line as int]@);
                assert(!no_prefix_line(ls, "Dodge City, KS"@));
                assert forall|j: int|
                    0 <= j < line implies !spec_starts_with(
                    #[trigger] ls[j],
                    "Dodge City, KS"@,
                ) by {
                    assert(ls[j] == text_array@[j]@);
                }
                lemma_first_pref_is(ls, "Dodge City, KS"@, 0, line as int);
            }
            line
        },
        None => {
            proof {
                assert forall|j: int|
                    0 <= j < ls.len() implies !spec_starts_with(
                    #[trigger] ls[j],
                    "Dodge City, KS"@,
                ) by {
                    assert(ls[j] == text_array@[j]@);
                }
                lemma_first_pref_none(ls, "Dodge City, KS"@, 0);
            }
            return Err("Failed to locate report date line".to_owned());
        },
    };
    let ghost date_line = ls[location as int];
    let report_date: Date = match scan_month_date(text_array[location].as_slice()) {
        Some((month_name, day, year)) => {
            let month: u32 = if str_eq(month_name.as_str(), "jan") {
                1
            } else if str_eq(month_name.as_str(), "feb") {
                2
            } else if str_eq(month_name.as_str(), "mar") {
                3
            } else if str_eq(month_name.as_str(), "apr") {
                4
            } else if str_eq(month_name.as_str(), "may") {
                5
            } else if str_eq(month_name.as_str(), "jun") {
                6
            } else if str_eq(month_name.as_str(), "jul") {
                7
            } else if str_eq(month_name.as_str(), "aug") {
                8
            } else if str_eq(month_name.as_str(), "sep") {
                9
            } else if str_eq(month_name.as_str(), "oct") {
                10
            } else if str_eq(month_name.as_str(), "nov") {
                11
            } else if str_eq(month_name.as_str(), "dec") {
                12
            } else {
                let msg = "Invalid month name captured: ".to_owned().concat(month_name.as_str());
                proof {
                    assert(msg@.subrange(0, 29) =~= "Invalid month name captured: "@) by {
                        reveal_strlit("Invalid month name captured: ");
                    }
                    assert(spec_starts_with(msg@, "Invalid month name captured: "@)) by {
                        reveal_strlit("Invalid month name captured: ");
                    }
                    assert(month_values(date_line, first_month(date_line, 0)) == Some(
                        (month_name@, day, year),
                    ));
                    assert(month_number(month_name@) is None);
                    assert(dcgr_month_unknown(text@));
                    assert(dcgr_report_date(text@) is None);
                }
                return Err(msg);
            };
            match Date::new(year, month, day) {
                Some(dt) => {
                    proof {
                        assert(month_values(date_line, first_month(date_line, 0)) == Some(
                            (month_name@, day, year),
                        ));
                        assert(month_number(month_name@) == Some(month));
                        assert(dcgr_report_date(text@) == Some(dt));
                    }
                    dt
                },
                None => {
                    proof {
                        assert(month_values(date_line, first_month(date_line, 0)) == Some(
                            (month_name@, day, year),
                        ));
                        assert(dcgr_report_date(text@) is None);
                    }
                    return Err("Failed to parse date line for report, aborting.".to_owned());
                },
            }
        },
        None => {
            proof {
                assert(dcgr_report_date(text@) is None);
            }
            return Err("Failed to parse date line for report, aborting.".to_owned());
        },
    };
    let ghost rd = report_date;

    let wheat_line = match find_line_contains(&text_array, "HRW WHEAT ORD US NO 1") {
        Some(line) => {
            proof {
                assert(ls[line as int] == text_array@[line as int]@);
                assert(!no_containing_line(ls, "HRW WHEAT ORD US NO 1"@));
                assert forall|j: int|
                    0 <= j < line implies !spec_contains(
                    #[trigger] ls[j],
                    "HRW WHEAT ORD US NO 1"@,
                ) by {
                    assert(ls[j] == text_array@[j]@);
                }
                lemma_first_contains_is(ls, "HRW WHEAT ORD US NO 1"@, 0, line as int);
            }
            line
        },
        None => {
            proof {
                assert forall|j: int|
                    0 <= j < ls.len() implies !spec_contains(
                    #[trigger] ls[j],
                    "HRW WHEAT ORD US NO 1"@,
                ) by {
                    assert(ls[j] == text_array@[j]@);
                }
            }
            return Err("Failed to locate wheat line".to_owned());
        },
    };
    let mut location = if nlines - wheat_line > 2 {
        wheat_line + 2
    } else {
        nlines
    };
    let ghost start0 = location as int;
    proof {
        assert(dcgr_scan_start(ls) == start0);
    }

    let mut cur_sec: usize = 0;
    let mut cur_si = structure.section_index("wheat");
    let ghost mut hits_done: Seq<(int, int)> = Seq::empty();
    proof {
        assert(cur_si == 0);
        assert(structure.sections@[0].0@ == grain_name(0));
        assert(hits_done + scan_table(ls, start0, 0).unwrap() =~= scan_table(
            ls,
            start0,
            0,
        ).unwrap());
        if scan_table(ls, start0, 0) is Some {
            assert(scan_table(ls, start0, 0) == opt_prepend(
                hits_done,
                scan_table(ls, start0, 0),
            ));
        }
        assert(hits_for(hits_done, 0).len() == 0);
    }
    loop
        invariant_except_break
            nlines == text_array@.len(),
            ls == spec_split_lines(text@),
            ls.len() == nlines,
            forall|j: int| 0 <= j < ls.len() ==> #[trigger] ls[j] == text_array@[j]@,
            location <= nlines,
            cur_sec <= 3,
            cur_si == cur_sec,
            structure.name@ == "DC_GR110"@,
            structure.wf(),
            rd == report_date,
            rd.valid(),
            dcgr_report_date(text@) == Some(rd),
            !no_prefix_line(ls, "Dodge City, KS"@),
            !no_containing_line(ls, "HRW WHEAT ORD US NO 1"@),
            dcgr_scan_start(ls) == start0,
            structure.sections@.len() == cur_sec + 1,
            forall|sidx: int|
                0 <= sidx <= cur_sec ==> (#[trigger] structure.sections@[sidx]).0@ == grain_name(
                    sidx,
                ),
            forall|k: int|
                0 <= k < hits_done.len() ==> 0 <= (#[trigger] hits_done[k]).1 < ls.len() && 0
                    <= hits_done[k].0 <= cur_sec,
            forall|sidx: int|
                0 <= sidx <= cur_sec ==> (#[trigger] structure.sections@[sidx]).1@.len()
                    == hits_for(hits_done, sidx).len(),
            forall|sidx: int, k: int|
                0 <= sidx <= cur_sec && 0 <= k < hits_for(hits_done, sidx).len()
                    ==> dcgr_record_from_line(
                    #[trigger] structure.sections@[sidx].1@[k],
                    ls[hits_for(hits_done, sidx)[k]],
                    rd,
                ),
            scan_table(ls, start0, 0) == opt_prepend(
                hits_done,
                scan_table(ls, location as int, cur_sec as int),
            ),
        ensures
            cur_sec == 3,
            structure.name@ == "DC_GR110"@,
            structure.wf(),
            structure.sections@.len() == 4,
            forall|sidx: int|
                0 <= sidx < 4 ==> (#[trigger] structure.sections@[sidx]).0@ == grain_name(sidx),
            scan_table(ls, start0, 0) == Some(hits_done),
            forall|k: int| 0 <= k < hits_done.len() ==> 0 <= (#[trigger] hits_done[k]).1 < ls.len(),
            forall|sidx: int|
                0 <= sidx < 4 ==> (#[trigger] structure.sections@[sidx]).1@.len() == hits_for(
                    hits_done,
                    sidx,
                ).len(),
            forall|sidx: int, k: int|
                0 <= sidx < 4 && 0 <= k < hits_for(hits_done, sidx).len()
                    ==> dcgr_record_from_line(
                    #[trigger] structure.sections@[sidx].1@[k],
                    ls[hits_for(hits_done, sidx)[k]],
                    rd,
                ),
        decreases nlines + 1 - location,
    {
        if location >= nlines {
            if cur_sec == 3 {
                proof {
                    assert(scan_table(ls, location as int, cur_sec as int) == Some(Seq::<
                        (int, int),
                    >::empty()));
                    assert(hits_done + Seq::<(int, int)>::empty() =~= hits_done);
                }
                break ;
            } else {
                proof {
                    assert(scan_table(ls, location as int, cur_sec as int) is None);
                    assert(scan_table(ls, start0, 0) is None);
                }
                let mut msg = String::new();
                msg.append("Failed to parse report, hit end of report early.");
                msg.append(" Missed sections:");
                proof {
                    assert(msg@.subrange(
                        0,
                        "Failed to parse report, hit end of report early."@.len() as int,
                    ) =~= "Failed to parse report, hit end of report early."@);
                }
                let mut ms = cur_sec + 1;
                while ms <= 3
                    invariant
                        spec_starts_with(
                            msg@,
                            "Failed to parse report, hit end of report early."@,
                        ),
                    decreases 4 - ms,
                {
                    msg.append(" ");
                    msg.append(grain_label(ms));
                    proof {
                        assert(msg@.subrange(
                            0,
                            "Failed to parse report, hit end of report early."@.len() as int,
                        ) =~= "Failed to parse report, hit end of report early."@);
                    }
                    ms += 1;
                }
                return Err(msg);
            }
        }
        let ghost lv = ls[location as int];
        match match_price_line(text_array[location].as_slice()) {
            Some((region, bid)) => {
                proof {
                    assert(ls[location as int] == text_array@[location as int]@);
                    assert(price_line_at(lv));
                }
                let mut rec = USDADataPackageSection::new(report_date);
                rec.independent.push(report_date.format_iso());
                rec.independent.push(region);
                rec.entries.push(("bid".to_owned(), bid));
                let ghost old_structure = structure;
                let ghost old_hits = hits_done;
                proof {
                    assert(rec.wf());
                    assert(dcgr_record_from_line(rec, lv, rd));
                    hits_done = hits_done.push((cur_sec as int, location as int));
                }
                structure.push_record(cur_si, rec);
                proof {
                    assert(hits_done.drop_last() =~= old_hits);
                    assert forall|sidx: int|
                        0 <= sidx <= cur_sec implies (
                    #[trigger] structure.sections@[sidx]).1@.len() == hits_for(
                        hits_done,
                        sidx,
                    ).len() by {
                        if sidx != cur_sec {
                            assert(structure.sections@[sidx] == old_structure.sections@[sidx]);
                        }
                    }
                    assert forall|sidx: int, k: int|
                        0 <= sidx <= cur_sec && 0 <= k < hits_for(
                            hits_done,
                            sidx,
                        ).len() implies dcgr_record_from_line(
                        #[trigger] structure.sections@[sidx].1@[k],
                        ls[hits_for(hits_done, sidx)[k]],
                        rd,
                    ) by {
                        if sidx == cur_sec {
                            if k < hits_for(old_hits, sidx).len() {
                                assert(structure.sections@[sidx].1@[k]
                                    == old_structure.sections@[sidx].1@[k]);
                                assert(hits_for(hits_done, sidx)[k] == hits_for(
                                    old_hits,
                                    sidx,
                                )[k]);
                            } else {
                                assert(structure.sections@[sidx].1@[k] == rec);
                                assert(hits_for(hits_done, sidx)[k] == location as int);
                            }
                        } else {
                            assert(structure.sections@[sidx] == old_structure.sections@[sidx]);
                            assert(hits_for(hits_done, sidx) =~= hits_for(old_hits, sidx));
                        }
                    }
                    // the scan takes this line as a hit of the current section
                    assert(scan_table(ls, location as int, cur_sec as int) == (
                    match scan_table(ls, location + 1, cur_sec as int) {
                        Some(rest) => Some(seq![(cur_sec as int, location as int)] + rest),
                        None => None,
                    }));
                    match scan_table(ls, location + 1, cur_sec as int) {
                        Some(rest) => {
                            assert(old_hits + (seq![(cur_sec as int, location as int)] + rest)
                                =~= hits_done + rest);
                        },
                        None => {},
                    }
                }
                location = location + 1;
            },
            None => {
                proof {
                    assert(ls[location as int] == text_array@[location as int]@);
                    assert(!price_line_at(lv));
                }
                if cur_sec == 3 {
                    proof {
                        assert(scan_table(ls, location as int, 3) == Some(Seq::<
                            (int, int),
                        >::empty()));
                        assert(hits_done + Seq::<(int, int)>::empty() =~= hits_done);
                    }
                    break ;
                } else {
                    let ghost old_structure = structure;
                    cur_sec = cur_sec + 1;
                    cur_si = structure.section_index(grain_label(cur_sec));
                    proof {
                        assert(cur_si == cur_sec) by {
                            assert forall|sidx: int|
                                0 <= sidx < old_structure.sections@.len() implies (
                            #[trigger] old_structure.sections@[sidx]).0@ != grain_name(
                                cur_sec as int,
                            ) by {
                                reveal_strlit("wheat");
                                reveal_strlit("corn");
                                reveal_strlit("sorghum");
                                reveal_strlit("soybeans");
                            }
                        }
                        assert forall|sidx: int|
                            0 <= sidx <= cur_sec implies (
                        #[trigger] structure.sections@[sidx]).0@ == grain_name(sidx) by {
                            if sidx < cur_sec {
                                assert(structure.sections@[sidx]
                                    == old_structure.sections@[sidx]);
                            }
                        }
                        assert forall|sidx: int|
                            0 <= sidx <= cur_sec implies (
                        #[trigger] structure.sections@[sidx]).1@.len() == hits_for(
                            hits_done,
                            sidx,
                        ).len() by {
                            if sidx < cur_sec {
                                assert(structure.sections@[sidx]
                                    == old_structure.sections@[sidx]);
                            } else {
                                lemma_hits_for_above(hits_done, sidx);
                            }
                        }
                        assert forall|sidx: int, k: int|
                            0 <= sidx <= cur_sec && 0 <= k < hits_for(
                                hits_done,
                                sidx,
                            ).len() implies dcgr_record_from_line(
                            #[trigger] structure.sections@[sidx].1@[k],
                            ls[hits_for(hits_done, sidx)[k]],
                            rd,
                        ) by {
                            if sidx < cur_sec {
                                assert(structure.sections@[sidx]
                                    == old_structure.sections@[sidx]);
                            } else {
                                lemma_hits_for_above(hits_done, sidx);
                            }
                        }
                    }
                    let ghost jump_loc = location + 3;
                    if nlines - location > 3 {
                        location = location + 3;
                    } else {
                        location = nlines;
                    }
                    proof {
                        assert(scan_table(ls, jump_loc, cur_sec as int) == scan_table(
                            ls,
                            location as int,
                            cur_sec as int,
                        ));
                    }
                }
            },
        }
    }
    proof {
        assert(dcgr110_result_ok(text@, structure)) by {
            assert(dcgr_report_date(text@) == Some(rd));
            assert(scan_table(ls, dcgr_scan_start(ls), 0) == Some(hits_done));
        }
    }
    Ok(structure)
}

/// Hits never name a section above every tag they hold.
proof fn lemma_hits_for_above(hits: Seq<(int, int)>, sec: int)
    requires
        forall|k: int| 0 <= k < hits.len() ==> (#[trigger] hits[k]).0 < sec,
    ensures
        hits_for(hits, sec).len() == 0,
    decreases hits.len(),
{
    if hits.len() > 0 {
        assert(forall|k: int|
            0 <= k < hits.len() - 1 ==> (#[trigger] hits.drop_last()[k]).0 == hits[k].0);
        lemma_hits_for_above(hits.drop_last(), sec);
    }
}

} // verus!
