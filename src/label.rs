//! Display-label resolution: cleaning the label that the package declares,
//! rejecting values that look like internal identifiers, and reading the
//! label line of a badging dump.
use vstd::prelude::*;
use crate::text::{
    char_is_alphanumeric, chars_equal, chars_of, find_char_from, is_alphanumeric, lines_of, lines_view, split_lines,
    string_of_range, trim_chars, trimmed,
};

verus! {

pub open spec fn is_line_break(c: char) -> bool {
    c == '\r' || c == '\n'
}

/// The declared label trimmed, with each `\r` and `\n` inside it made a space.
pub open spec fn cleaned_label(raw: Seq<char>) -> Seq<char> {
    trimmed(raw).map_values(|c: char| if is_line_break(c) { ' ' } else { c })
}

pub open spec fn is_identifier_char(c: char) -> bool {
    is_alphanumeric(c) || c == '.' || c == '_'
}

/// A label that is rather an internal class or resource name: it has a `.`,
/// no space, differs from the package name, and holds only alphanumerics,
/// `.` and `_`.
pub open spec fn looks_like_identifier(label: Seq<char>, package: Seq<char>) -> bool {
    &&& label.contains('.')
    &&& !label.contains(' ')
    &&& label != package
    &&& forall|i: int| 0 <= i < label.len() ==> is_identifier_char(#[trigger] label[i])
}

/// What the declared label gives: the cleaned label unless it is empty or
/// looks like an identifier.
pub open spec fn declared_label(raw: Seq<char>, package: Seq<char>) -> Option<Seq<char>> {
    let c = cleaned_label(raw);
    if c.len() == 0 || looks_like_identifier(c, package) {
        None
    } else {
        Some(c)
    }
}

/// Trims `raw` and turns each carriage return or line feed in it into a space.
pub fn clean_label(raw: &str) -> (r: String)
    ensures
        r@ == cleaned_label(raw@),
{
    let t = trim_chars(&chars_of(raw));
    let mut out: Vec<char> = Vec::new();
    let mut i: usize = 0;
    while i < t.len()
        invariant
            i <= t@.len(),
            t@ == trimmed(raw@),
            out@ == cleaned_label(raw@).subrange(0, i as int),
        decreases t@.len() - i,
    {
        let c = t[i];
        if c == '\r' || c == '\n' {
            out.push(' ');
        } else {
            out.push(c);
        }
        assert(out@ =~= cleaned_label(raw@).subrange(0, i + 1));
        i = i + 1;
    }
    assert(out@ =~= cleaned_label(raw@));
    string_of_range(&out, 0, out.len())
}

/// Whether the cleaned label `label` looks like an internal identifier rather
/// than a name meant for people.
pub fn is_spurious_label(label: &str, package_name: &str) -> (r: bool)
    ensures
        r == looks_like_identifier(label@, package_name@),
{
    let l = chars_of(label);
    let p = chars_of(package_name);
    let mut has_dot = false;
    let mut has_space = false;
    let mut all_identifier = true;
    let mut i: usize = 0;
    while i < l.len()
        invariant
            i <= l@.len(),
            l@ == label@,
            has_dot == exists|j: int| 0 <= j < i && l@[j] == '.',
            has_space == exists|j: int| 0 <= j < i && l@[j] == ' ',
            all_identifier == forall|j: int| 0 <= j < i ==> is_identifier_char(#[trigger] l@[j]),
        decreases l@.len() - i,
    {
        let c = l[i];
        if c == '.' {
            has_dot = true;
        }
        if c == ' ' {
            has_space = true;
        }
        if !(char_is_alphanumeric(c) || c == '.' || c == '_') {
            all_identifier = false;
        }
        i = i + 1;
    }
    let same = chars_equal(&l, &p);
    has_dot && !has_space && !same && all_identifier
}

/// The label to show for `package_name` from the label its package declares:
/// `None` where the cleaned value is empty or looks like an identifier, so
/// that the badging dump is tried next.
pub fn accept_declared_label(raw: &str, package_name: &str) -> (r: Option<String>)
    ensures
        match r {
            Some(l) => declared_label(raw@, package_name@) == Some(l@),
            None => declared_label(raw@, package_name@) is None,
        },
{
    let clean = clean_label(raw);
    if clean.as_str().is_empty() {
        return None;
    }
    if is_spurious_label(clean.as_str(), package_name) {
        return None;
    }
    Some(clean)
}

/// The marker that opens the label line of a badging dump.
pub open spec fn label_marker() -> Seq<char> {
    seq![
        'a', 'p', 'p', 'l', 'i', 'c', 'a', 't', 'i', 'o', 'n', '-', 'l', 'a', 'b', 'e', 'l', ':',
        '\'',
    ]
}

/// The glyph that closes the label on that line.
pub open spec fn label_end_glyph() -> char {
    '\u{2018}'
}

/// The label that one line of a badging dump carries: what lies between the
/// marker, at the start of the trimmed line, and the first closing glyph.
pub open spec fn line_label(line: Seq<char>) -> Option<Seq<char>> {
    let t = trimmed(line);
    let m = label_marker().len() as int;
    if t.len() >= m && t.subrange(0, m) == label_marker() {
        let rest = t.subrange(m, t.len() as int);
        match find_char_from(rest, label_end_glyph(), 0) {
            Some(end) => Some(rest.subrange(0, end)),
            None => None,
        }
    } else {
        None
    }
}

/// The label of the first line of `ls` that carries one.
pub open spec fn first_line_label(ls: Seq<Seq<char>>) -> Option<Seq<char>>
    decreases ls.len(),
{
    if ls.len() == 0 {
        None
    } else {
        match first_line_label(ls.drop_last()) {
            Some(l) => Some(l),
            None => line_label(ls.last()),
        }
    }
}

pub open spec fn badging_label(output: Seq<char>) -> Option<Seq<char>> {
    first_line_label(split_lines(output))
}

fn label_of_line(line: &Vec<char>) -> (r: Option<String>)
    ensures
        match r {
            Some(l) => line_label(line@) == Some(l@),
            None => line_label(line@) is None,
        },
{
    let t = trim_chars(line);
    let marker: Vec<char> = vec![
        'a', 'p', 'p', 'l', 'i', 'c', 'a', 't', 'i', 'o', 'n', '-', 'l', 'a', 'b', 'e', 'l', ':',
        '\'',
    ];
    assert(marker@ =~= label_marker());
    let m = marker.len();
    if t.len() < m {
        return None;
    }
    let mut k: usize = 0;
    while k < m
        invariant
            k <= m == marker@.len() <= t@.len(),
            marker@ == label_marker(),
            t@ == trimmed(line@),
            forall|j: int| 0 <= j < k ==> t@[j] == marker@[j],
        decreases m - k,
    {
        if t[k] != marker[k] {
            assert(t@.subrange(0, m as int)[k as int] != label_marker()[k as int]);
            return None;
        }
        k = k + 1;
    }
    assert(t@.subrange(0, m as int) =~= label_marker());
    let ghost rest = t@.subrange(m as int, t@.len() as int);
    let mut e = m;
    while e < t.len()
        invariant
            m <= e <= t@.len(),
            m == label_marker().len(),
            t@ == trimmed(line@),
            t@.subrange(0, m as int) == label_marker(),
            rest == t@.subrange(m as int, t@.len() as int),
            find_char_from(rest, label_end_glyph(), (e - m) as int) == find_char_from(
                rest,
                label_end_glyph(),
                0,
            ),
        decreases t@.len() - e,
    {
        if t[e] == '\u{2018}' {
            assert(rest[(e - m) as int] == label_end_glyph());
            assert(rest.subrange(0, (e - m) as int) =~= t@.subrange(m as int, e as int));
            return Some(string_of_range(&t, m, e));
        }
        e = e + 1;
    }
    None
}

/// The label that a badging dump gives: the first line that starts with the
/// label marker and has a closing glyph after it.
pub fn label_from_badging(output: &str) -> (r: Option<String>)
    ensures
        match r {
            Some(l) => badging_label(output@) == Some(l@),
            None => badging_label(output@) is None,
        },
{
    let lines = lines_of(output);
    let mut k: usize = 0;
    assert(lines_view(lines@).subrange(0, 0) =~= Seq::<Seq<char>>::empty());
    while k < lines.len()
        invariant
            k <= lines@.len(),
            lines_view(lines@) == split_lines(output@),
            first_line_label(lines_view(lines@).subrange(0, k as int)) is None,
        decreases lines@.len() - k,
    {
        let ghost prefix = lines_view(lines@).subrange(0, k + 1);
        assert(prefix.drop_last() =~= lines_view(lines@).subrange(0, k as int));
        match label_of_line(&lines[k]) {
            Some(l) => {
                proof {
                    lemma_first_label_kept(lines_view(lines@), k as int + 1);
                }
                return Some(l);
            },
            None => {},
        }
        k = k + 1;
    }
    assert(lines_view(lines@).subrange(0, k as int) =~= lines_view(lines@));
    None
}

proof fn lemma_first_label_kept(ls: Seq<Seq<char>>, k: int)
    requires
        0 <= k <= ls.len(),
        first_line_label(ls.subrange(0, k)) is Some,
    ensures
        first_line_label(ls) == first_line_label(ls.subrange(0, k)),
    decreases ls.len() - k,
{
    if k < ls.len() {
        assert(ls.subrange(0, k + 1).drop_last() =~= ls.subrange(0, k));
        lemma_first_label_kept(ls, k + 1);
    } else {
        assert(ls.subrange(0, k) =~= ls);
    }
}

} // verus!
