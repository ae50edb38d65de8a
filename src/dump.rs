//! The dexopt dump scanner: a two-state machine over trimmed lines that
//! files each architecture-tagged line under the most recent package header.
use vstd::prelude::*;
use crate::text::{
    char_is_alphanumeric, is_alphanumeric, contains_chars, contains_seq, is_white_space, lines_of, lines_view, matches_at, occurs_at,
    split_lines, string_of_range, trim_chars, trimmed, white_space,
};

verus! {

/// A record as the contracts see it: the trimmed line, then its status token.
pub type RecordView = (Seq<char>, Seq<char>);

/// An index entry as the contracts see it: a package name and its records.
pub type EntryView = (Seq<char>, Seq<RecordView>);

/// The scanner's state: the package now in scope, if any, and the index so far.
pub type ScanView = (Option<Seq<char>>, Seq<EntryView>);

/// One architecture-tagged line of the dump.
pub struct DexOptInfo {
    pub raw_line: String,
    pub status: String,
}

impl View for DexOptInfo {
    type V = RecordView;

    open spec fn view(&self) -> RecordView {
        (self.raw_line@, self.status@)
    }
}

/// The records filed under one package, in the order they appear in the dump.
pub struct PackageRecords {
    pub name: String,
    pub records: Vec<DexOptInfo>,
}

pub open spec fn records_view(v: Seq<DexOptInfo>) -> Seq<RecordView> {
    v.map_values(|r: DexOptInfo| r@)
}

impl View for PackageRecords {
    type V = EntryView;

    open spec fn view(&self) -> EntryView {
        (self.name@, records_view(self.records@))
    }
}

pub open spec fn arm64_tag() -> Seq<char> {
    seq!['a', 'r', 'm', '6', '4', ':']
}

pub open spec fn arm_tag() -> Seq<char> {
    seq!['a', 'r', 'm', ':']
}

pub open spec fn status_key() -> Seq<char> {
    seq!['s', 't', 'a', 't', 'u', 's', '=']
}

pub open spec fn filter_key() -> Seq<char> {
    seq!['f', 'i', 'l', 't', 'e', 'r', '=']
}

/// The status given to a record line that names none.
pub open spec fn unknown_status() -> Seq<char> {
    seq!['u', 'n', 'k', 'n', 'o', 'w', 'n']
}

/// A package header: `[name]`, with no space and no `=` anywhere in it.
pub open spec fn is_header(t: Seq<char>) -> bool {
    &&& t.len() >= 2
    &&& t[0] == '['
    &&& t[t.len() - 1] == ']'
    &&& !t.contains(' ')
    &&& !t.contains('=')
}

pub open spec fn header_name(t: Seq<char>) -> Seq<char> {
    t.subrange(1, t.len() - 1)
}

/// The line names an architecture: `arm64:` or `arm:` occurs in it.
pub open spec fn has_arch_tag(t: Seq<char>) -> bool {
    contains_seq(t, arm64_tag()) || contains_seq(t, arm_tag())
}

/// A word character: alphanumeric or `_`. A field name counts only where no
/// word character comes right before it. Combining marks, and connector
/// punctuation other than `_`, are not word characters here.
pub open spec fn is_word_char(c: char) -> bool {
    is_alphanumeric(c) || c == '_'
}

/// A character of a field's value: neither a bracket nor white space.
pub open spec fn is_value_char(c: char) -> bool {
    c != '[' && c != ']' && !is_white_space(c)
}

/// A `status=` or `filter=` field with a non-empty value starts at `i`.
pub open spec fn field_at(t: Seq<char>, i: int) -> bool {
    &&& 0 <= i
    &&& i == 0 || !is_word_char(t[i - 1])
    &&& occurs_at(t, i, status_key()) || occurs_at(t, i, filter_key())
    &&& i + 7 < t.len()
    &&& is_value_char(t[i + 7])
}

/// The first position at or after `i` where a field starts.
pub open spec fn first_field_from(t: Seq<char>, i: int) -> Option<int>
    decreases t.len() - i,
{
    if i < 0 || i >= t.len() {
        None
    } else if field_at(t, i) {
        Some(i)
    } else {
        first_field_from(t, i + 1)
    }
}

/// End of the run of value characters that starts at `j`.
pub open spec fn value_end(t: Seq<char>, j: int) -> int
    decreases t.len() - j,
{
    if 0 <= j < t.len() && is_value_char(t[j]) {
        value_end(t, j + 1)
    } else {
        j
    }
}

/// The status token of a record line: the value of its first field, else `unknown`.
pub open spec fn status_of(t: Seq<char>) -> Seq<char> {
    match first_field_from(t, 0) {
        Some(i) => t.subrange(i + 7, value_end(t, i + 7)),
        None => unknown_status(),
    }
}

/// Position of the first entry named `p` at or after `i`, or -1.
pub open spec fn entry_position(idx: Seq<EntryView>, p: Seq<char>, i: int) -> int
    decreases idx.len() - i,
{
    if i < 0 || i >= idx.len() {
        -1
    } else if idx[i].0 == p {
        i
    } else {
        entry_position(idx, p, i + 1)
    }
}

/// The records filed under `p`, if any were.
pub open spec fn lookup(idx: Seq<EntryView>, p: Seq<char>) -> Option<Seq<RecordView>> {
    let i = entry_position(idx, p, 0);
    if i >= 0 {
        Some(idx[i].1)
    } else {
        None
    }
}

/// `rec` appended to the records of `p`, which get an entry at the end if new.
pub open spec fn add_record(idx: Seq<EntryView>, p: Seq<char>, rec: RecordView) -> Seq<EntryView> {
    let i = entry_position(idx, p, 0);
    if i >= 0 {
        idx.update(i, (p, idx[i].1.push(rec)))
    } else {
        idx.push((p, seq![rec]))
    }
}

/// One step of the scanner on one line of the dump.
pub open spec fn scan_line(st: ScanView, line: Seq<char>) -> ScanView {
    let t = trimmed(line);
    if t.len() == 0 {
        st
    } else if is_header(t) {
        (Some(header_name(t)), st.1)
    } else if st.0 is Some && has_arch_tag(t) {
        (st.0, add_record(st.1, st.0->0, (t, status_of(t))))
    } else {
        st
    }
}

/// The scanner run over `ls` from state `st`.
pub open spec fn scan_lines(st: ScanView, ls: Seq<Seq<char>>) -> ScanView
    decreases ls.len(),
{
    if ls.len() == 0 {
        st
    } else {
        scan_line(scan_lines(st, ls.drop_last()), ls.last())
    }
}

pub open spec fn initial_scan() -> ScanView {
    (None, Seq::empty())
}

/// The index that the scanner builds from the dump text `d`.
pub open spec fn dump_index(d: Seq<char>) -> Seq<EntryView> {
    scan_lines(initial_scan(), split_lines(d)).1
}

pub open spec fn entries_view(v: Seq<PackageRecords>) -> Seq<EntryView> {
    v.map_values(|e: PackageRecords| e@)
}

pub open spec fn scope_view(c: Option<String>) -> Option<Seq<char>> {
    match c {
        Some(s) => Some(s@),
        None => None,
    }
}

fn is_header_line(t: &Vec<char>) -> (r: bool)
    ensures
        r == is_header(t@),
{
    if t.len() < 2 || t[0] != '[' || t[t.len() - 1] != ']' {
        return false;
    }
    let mut i: usize = 0;
    while i < t.len()
        invariant
            i <= t@.len(),
            forall|j: int| 0 <= j < i ==> t@[j] != ' ' && t@[j] != '=',
        decreases t@.len() - i,
    {
        if t[i] == ' ' || t[i] == '=' {
            return false;
        }
        i = i + 1;
    }
    true
}

fn has_arch_tag_line(t: &Vec<char>) -> (r: bool)
    ensures
        r == has_arch_tag(t@),
{
    let arm64: Vec<char> = vec!['a', 'r', 'm', '6', '4', ':'];
    let arm: Vec<char> = vec!['a', 'r', 'm', ':'];
    assert(arm64@ =~= arm64_tag());
    assert(arm@ =~= arm_tag());
    contains_chars(t, &arm64) || contains_chars(t, &arm)
}

fn word_char(c: char) -> (r: bool)
    ensures
        r == is_word_char(c),
{
    char_is_alphanumeric(c) || c == '_'
}

fn value_char(c: char) -> (r: bool)
    ensures
        r == is_value_char(c),
{
    c != '[' && c != ']' && !white_space(c)
}

fn status_token(t: &Vec<char>) -> (r: String)
    ensures
        r@ == status_of(t@),
{
    let skey: Vec<char> = vec!['s', 't', 'a', 't', 'u', 's', '='];
    let fkey: Vec<char> = vec!['f', 'i', 'l', 't', 'e', 'r', '='];
    assert(skey@ =~= status_key());
    assert(fkey@ =~= filter_key());
    let mut i: usize = 0;
    while i < t.len()
        invariant
            i <= t@.len(),
            t@.len() == t.len(),
            first_field_from(t@, i as int) == first_field_from(t@, 0),
            skey@ == status_key(),
            fkey@ == filter_key(),
        decreases t@.len() - i,
    {
        let at_field = (i == 0 || !word_char(t[i - 1])) && (matches_at(t, i, &skey) || matches_at(
            t,
            i,
            &fkey,
        )) && t.len() - i > 7 && value_char(t[i + 7]);
        assert(at_field == field_at(t@, i as int));
        if at_field {
            let start = i + 7;
            let mut j = start;
            while j < t.len() && value_char(t[j])
                invariant
                    start <= j <= t@.len(),
                    value_end(t@, j as int) == value_end(t@, start as int),
                decreases t@.len() - j,
            {
                j = j + 1;
            }
            return string_of_range(t, start, j);
        }
        i = i + 1;
    }
    let unknown: Vec<char> = vec!['u', 'n', 'k', 'n', 'o', 'w', 'n'];
    assert(unknown@ =~= unknown_status());
    assert(unknown@.subrange(0, 7) =~= unknown@);
    string_of_range(&unknown, 0, 7)
}

fn file_record(entries: &mut Vec<PackageRecords>, p: &String, info: DexOptInfo)
    ensures
        entries_view(final(entries)@) == add_record(entries_view(old(entries)@), p@, info@),
{
    let ghost ev = entries_view(entries@);
    let mut i: usize = 0;
    while i < entries.len()
        invariant
            i <= entries@.len(),
            entries@ == old(entries)@,
            ev == entries_view(entries@),
            entry_position(ev, p@, i as int) == entry_position(ev, p@, 0),
        decreases entries@.len() - i,
    {
        if entries[i].name == *p {
            let mut e = entries.remove(i);
            e.records.push(info);
            entries.insert(i, e);
            assert(records_view(e.records@) =~= ev[i as int].1.push(info@));
            assert(entries_view(entries@) =~= ev.update(i as int, (p@, ev[i as int].1.push(info@))));
            return;
        }
        i = i + 1;
    }
    let ghost info_view = info@;
    let records: Vec<DexOptInfo> = vec![info];
    assert(records_view(records@) =~= seq![info_view]);
    entries.push(PackageRecords { name: p.clone(), records });
    assert(entries_view(entries@) =~= ev.push((p@, seq![info_view])));
}

fn scan_step(current: &mut Option<String>, entries: &mut Vec<PackageRecords>, line: &Vec<char>)
    ensures
        (scope_view(*final(current)), entries_view(final(entries)@)) == scan_line(
            (scope_view(*old(current)), entries_view(old(entries)@)),
            line@,
        ),
{
    let t = trim_chars(line);
    if t.len() == 0 {
        return;
    }
    if is_header_line(&t) {
        *current = Some(string_of_range(&t, 1, t.len() - 1));
        return;
    }
    match current {
        Some(pkg) => {
            if has_arch_tag_line(&t) {
                let status = status_token(&t);
                let raw_line = string_of_range(&t, 0, t.len());
                assert(t@.subrange(0, t@.len() as int) =~= t@);
                file_record(entries, pkg, DexOptInfo { raw_line, status });
            }
        },
        None => {},
    }
}

/// The per-package index of a dexopt dump.
pub struct Analyzer {
    entries: Vec<PackageRecords>,
}

impl View for Analyzer {
    type V = Seq<EntryView>;

    closed spec fn view(&self) -> Seq<EntryView> {
        entries_view(self.entries@)
    }
}

impl Analyzer {
    /// Scans the dump text line by line and files each record line under the
    /// package whose header came last before it.
    pub fn new(dump: &str) -> (r: Analyzer)
        ensures
            r@ == dump_index(dump@),
    {
        let lines = lines_of(dump);
        let mut current: Option<String> = None;
        let mut entries: Vec<PackageRecords> = Vec::new();
        let mut k: usize = 0;
        proof {
            assert(entries_view(entries@) =~= Seq::<EntryView>::empty());
            assert(lines_view(lines@).subrange(0, 0) =~= Seq::<Seq<char>>::empty());
        }
        while k < lines.len()
            invariant
                k <= lines@.len(),
                lines_view(lines@) == split_lines(dump@),
                (scope_view(current), entries_view(entries@)) == scan_lines(
                    initial_scan(),
                    lines_view(lines@).subrange(0, k as int),
                ),
            decreases lines@.len() - k,
        {
            proof {
                assert(lines_view(lines@).subrange(0, k + 1).drop_last() =~= lines_view(
                    lines@,
                ).subrange(0, k as int));
            }
            scan_step(&mut current, &mut entries, &lines[k]);
            k = k + 1;
        }
        proof {
            assert(lines_view(lines@).subrange(0, k as int) =~= lines_view(lines@));
        }
        Analyzer { entries }
    }

    /// The records filed under `pkg_name`, or `None` when the dump named none.
    pub fn get_info(&self, pkg_name: &str) -> (r: Option<&Vec<DexOptInfo>>)
        ensures
            match r {
                Some(v) => lookup(self@, pkg_name@) == Some(records_view(v@)),
                None => lookup(self@, pkg_name@) is None,
            },
    {
        broadcast use vstd::string::group_string_axioms;

        let key = pkg_name.to_string();
        let mut i: usize = 0;
        while i < self.entries.len()
            invariant
                i <= self.entries@.len(),
                key@ == pkg_name@,
                entry_position(self@, pkg_name@, i as int) == entry_position(self@, pkg_name@, 0),
            decreases self.entries@.len() - i,
        {
            assert(self@[i as int] == self.entries@[i as int]@);
            if self.entries[i].name == key {
                return Some(&self.entries[i].records);
            }
            i = i + 1;
        }
        None
    }
}

/// Scanning the same dump text twice gives the same index.
pub proof fn lemma_scan_deterministic(dump: Seq<char>, first: Analyzer, second: Analyzer)
    requires
        first@ == dump_index(dump),
        second@ == dump_index(dump),
    ensures
        first@ == second@,
{
}

proof fn lemma_no_field_from(t: Seq<char>, i: int)
    requires
        !contains_seq(t, status_key()),
        !contains_seq(t, filter_key()),
    ensures
        first_field_from(t, i) is None,
    decreases t.len() - i,
{
    if 0 <= i < t.len() {
        assert(!occurs_at(t, i, status_key()));
        assert(!occurs_at(t, i, filter_key()));
        lemma_no_field_from(t, i + 1);
    }
}

/// A record line in which neither `status=` nor `filter=` occurs gets the status `unknown`.
pub proof fn lemma_missing_field_is_unknown(t: Seq<char>)
    requires
        !contains_seq(t, status_key()),
        !contains_seq(t, filter_key()),
    ensures
        status_of(t) == unknown_status(),
{
    lemma_no_field_from(t, 0);
}

proof fn lemma_scan_concat(st: ScanView, a: Seq<Seq<char>>, b: Seq<Seq<char>>)
    ensures
        scan_lines(st, a + b) == scan_lines(scan_lines(st, a), b),
    decreases b.len(),
{
    if b.len() == 0 {
        assert(a + b =~= a);
    } else {
        assert((a + b).drop_last() =~= a + b.drop_last());
        lemma_scan_concat(st, a, b.drop_last());
    }
}

proof fn lemma_unscoped_prefix(pre: Seq<Seq<char>>)
    requires
        forall|i: int| 0 <= i < pre.len() ==> !is_header(trimmed(#[trigger] pre[i])),
    ensures
        scan_lines(initial_scan(), pre) == initial_scan(),
    decreases pre.len(),
{
    if pre.len() > 0 {
        lemma_unscoped_prefix(pre.drop_last());
        assert(!is_header(trimmed(pre[pre.len() - 1])));
    }
}

/// Lines that come before any package header add nothing: scanning them and
/// then `rest` gives what scanning `rest` alone gives.
pub proof fn lemma_unscoped_lines_ignored(pre: Seq<Seq<char>>, rest: Seq<Seq<char>>)
    requires
        forall|i: int| 0 <= i < pre.len() ==> !is_header(trimmed(#[trigger] pre[i])),
    ensures
        scan_lines(initial_scan(), pre + rest) == scan_lines(initial_scan(), rest),
{
    lemma_scan_concat(initial_scan(), pre, rest);
    lemma_unscoped_prefix(pre);
}

/// Every package in the index has at least one record, and none is listed twice.
pub open spec fn index_well_formed(idx: Seq<EntryView>) -> bool {
    &&& forall|i: int| 0 <= i < idx.len() ==> (#[trigger] idx[i]).1.len() > 0
    &&& forall|i: int, j: int| 0 <= i < j < idx.len() ==> (#[trigger] idx[i]).0 != (#[trigger] idx[j]).0
}

proof fn lemma_entry_position(idx: Seq<EntryView>, p: Seq<char>, i: int)
    requires
        0 <= i,
    ensures
        entry_position(idx, p, i) >= 0 ==> i <= entry_position(idx, p, i) < idx.len() && idx[entry_position(idx, p, i)].0 == p,
        entry_position(idx, p, i) < 0 ==> forall|j: int| i <= j < idx.len() ==> (#[trigger] idx[j]).0 != p,
    decreases idx.len() - i,
{
    if i < idx.len() && idx[i].0 != p {
        lemma_entry_position(idx, p, i + 1);
    }
}

proof fn lemma_scan_well_formed(st: ScanView, ls: Seq<Seq<char>>)
    requires
        index_well_formed(st.1),
    ensures
        index_well_formed(scan_lines(st, ls).1),
    decreases ls.len(),
{
    if ls.len() > 0 {
        lemma_scan_well_formed(st, ls.drop_last());
        let prev = scan_lines(st, ls.drop_last());
        let t = trimmed(ls.last());
        if t.len() != 0 && !is_header(t) && prev.0 is Some && has_arch_tag(t) {
            lemma_entry_position(prev.1, prev.0->0, 0);
        }
    }
}

/// The index that a dump gives never holds a package with no records, nor
/// the same package twice.
pub proof fn lemma_dump_index_well_formed(d: Seq<char>)
    ensures
        index_well_formed(dump_index(d)),
{
    lemma_scan_well_formed(initial_scan(), split_lines(d));
}

proof fn lemma_first_position_kept(idx: Seq<EntryView>, p: Seq<char>, i: int, pos: int, e: EntryView)
    requires
        0 <= i <= pos < idx.len(),
        entry_position(idx, p, i) == pos,
        e.0 == p,
    ensures
        entry_position(idx.update(pos, e), p, i) == pos,
    decreases pos - i,
{
    if i < pos {
        lemma_first_position_kept(idx, p, i + 1, pos, e);
    }
}

proof fn lemma_absent_then_last(idx: Seq<EntryView>, p: Seq<char>, e: EntryView, i: int)
    requires
        0 <= i <= idx.len(),
        forall|j: int| i <= j < idx.len() ==> (#[trigger] idx[j]).0 != p,
        e.0 == p,
    ensures
        entry_position(idx.push(e), p, i) == idx.len(),
    decreases idx.len() - i,
{
    if i < idx.len() {
        lemma_absent_then_last(idx, p, e, i + 1);
    }
}

/// A record line read while package `k` is in scope is appended, as the
/// trimmed line with its status, after the records already filed under `k`;
/// the scope stays `k`. Where the line has no `status=` or `filter=` field,
/// that status is `unknown`.
pub proof fn lemma_record_appended(st: ScanView, line: Seq<char>, k: Seq<char>)
    requires
        st.0 == Some(k),
        trimmed(line).len() > 0,
        !is_header(trimmed(line)),
        has_arch_tag(trimmed(line)),
    ensures
        scan_line(st, line).0 == Some(k),
        lookup(scan_line(st, line).1, k) == Some(
            match lookup(st.1, k) {
                Some(recs) => recs,
                None => Seq::<RecordView>::empty(),
            }.push((trimmed(line), status_of(trimmed(line)))),
        ),
        !contains_seq(trimmed(line), status_key()) && !contains_seq(trimmed(line), filter_key())
            ==> status_of(trimmed(line)) == unknown_status(),
{
    let t = trimmed(line);
    let rec = (t, status_of(t));
    let idx = st.1;
    lemma_entry_position(idx, k, 0);
    let pos = entry_position(idx, k, 0);
    if pos >= 0 {
        lemma_first_position_kept(idx, k, 0, pos, (k, idx[pos].1.push(rec)));
    } else {
        lemma_absent_then_last(idx, k, (k, seq![rec]), 0);
        assert(seq![rec] =~= Seq::<RecordView>::empty().push(rec));
    }
    if !contains_seq(t, status_key()) && !contains_seq(t, filter_key()) {
        lemma_missing_field_is_unknown(t);
    }
}

} // verus!
