//! Selection of the packages to show and the count of each status among them.
use vstd::prelude::*;
use crate::dump::{records_view, lookup, Analyzer, DexOptInfo, EntryView, RecordView};
use crate::packages::{packages_view, Package, PackageView};
use crate::text::{
    chars_of, contains_chars, contains_seq, lemma_lex_irreflexive, lemma_lex_total,
    lemma_lex_transitive, lex_less, lex_lt,
};

verus! {

/// How many records of the shown packages carry one status.
pub struct StatusCount {
    pub status: String,
    pub count: usize,
}

impl View for StatusCount {
    type V = (Seq<char>, nat);

    open spec fn view(&self) -> (Seq<char>, nat) {
        (self.status@, self.count as nat)
    }
}

pub open spec fn counts_view(v: Seq<StatusCount>) -> Seq<(Seq<char>, nat)> {
    v.map_values(|c: StatusCount| c@)
}

/// The packages to show, in listing order, and the status counts over their records.
pub struct Selection {
    pub displayed: Vec<Package>,
    pub counts: Vec<StatusCount>,
    pub total_displayed: usize,
}

pub open spec fn opt_view(s: Option<&str>) -> Option<Seq<char>> {
    match s {
        Some(x) => Some(x@),
        None => None,
    }
}

pub open spec fn passes_name_filter(name: Seq<char>, filter: Option<Seq<char>>) -> bool {
    match filter {
        Some(f) => contains_seq(name, f),
        None => true,
    }
}

pub open spec fn some_status_contains(recs: Seq<RecordView>, f: Seq<char>) -> bool {
    exists|j: int| 0 <= j < recs.len() && contains_seq(#[trigger] recs[j].1, f)
}

/// Whether package `p` is shown: its name contains the name filter, and where
/// a status filter is set, the dump has records for it and one of their
/// statuses contains the filter.
pub open spec fn is_displayed(
    p: PackageView,
    idx: Seq<EntryView>,
    name_filter: Option<Seq<char>>,
    status_filter: Option<Seq<char>>,
) -> bool {
    &&& passes_name_filter(p.0, name_filter)
    &&& match status_filter {
        Some(f) => match lookup(idx, p.0) {
            Some(recs) => some_status_contains(recs, f),
            None => false,
        },
        None => true,
    }
}

/// The shown packages, in the order of `pkgs`.
pub open spec fn displayed_packages(
    pkgs: Seq<PackageView>,
    idx: Seq<EntryView>,
    name_filter: Option<Seq<char>>,
    status_filter: Option<Seq<char>>,
) -> Seq<PackageView>
    decreases pkgs.len(),
{
    if pkgs.len() == 0 {
        Seq::empty()
    } else {
        let before = displayed_packages(pkgs.drop_last(), idx, name_filter, status_filter);
        if is_displayed(pkgs.last(), idx, name_filter, status_filter) {
            before.push(pkgs.last())
        } else {
            before
        }
    }
}

/// The statuses of the records filed under `name`, in dump order.
pub open spec fn statuses_of(idx: Seq<EntryView>, name: Seq<char>) -> Seq<Seq<char>> {
    match lookup(idx, name) {
        Some(recs) => recs.map_values(|r: RecordView| r.1),
        None => Seq::empty(),
    }
}

/// The statuses of all records of the shown packages.
pub open spec fn displayed_statuses(
    pkgs: Seq<PackageView>,
    idx: Seq<EntryView>,
    name_filter: Option<Seq<char>>,
    status_filter: Option<Seq<char>>,
) -> Seq<Seq<char>>
    decreases pkgs.len(),
{
    if pkgs.len() == 0 {
        Seq::empty()
    } else {
        let before = displayed_statuses(pkgs.drop_last(), idx, name_filter, status_filter);
        if is_displayed(pkgs.last(), idx, name_filter, status_filter) {
            before + statuses_of(idx, pkgs.last().0)
        } else {
            before
        }
    }
}

/// How many times `x` occurs in `s`.
pub open spec fn occurrences(s: Seq<Seq<char>>, x: Seq<char>) -> nat
    decreases s.len(),
{
    if s.len() == 0 {
        0
    } else {
        occurrences(s.drop_last(), x) + if s.last() == x {
            1nat
        } else {
            0nat
        }
    }
}

/// `counts` holds one entry for each status of `statuses`, ordered by status,
/// with the number of times it occurs.
pub open spec fn counts_of(counts: Seq<(Seq<char>, nat)>, statuses: Seq<Seq<char>>) -> bool {
    &&& forall|i: int, j: int|
        0 <= i < j < counts.len() ==> lex_lt((#[trigger] counts[i]).0, (#[trigger] counts[j]).0)
    &&& forall|i: int|
        0 <= i < counts.len() ==> (#[trigger] counts[i]).1 == occurrences(statuses, counts[i].0)
            && counts[i].1 > 0
    &&& forall|k: int|
        0 <= k < statuses.len() ==> exists|i: int|
            0 <= i < counts.len() && (#[trigger] counts[i]).0 == #[trigger] statuses[k]
}

proof fn lemma_occurrences_append(a: Seq<Seq<char>>, b: Seq<Seq<char>>, x: Seq<char>)
    ensures
        occurrences(a, x) <= occurrences(a + b, x),
    decreases b.len(),
{
    if b.len() == 0 {
        assert(a + b =~= a);
    } else {
        assert((a + b).drop_last() =~= a + b.drop_last());
        lemma_occurrences_append(a, b.drop_last(), x);
    }
}

proof fn lemma_occurrences_present(s: Seq<Seq<char>>, x: Seq<char>)
    requires
        occurrences(s, x) > 0,
    ensures
        exists|k: int| 0 <= k < s.len() && s[k] == x,
    decreases s.len(),
{
    if s.last() != x {
        lemma_occurrences_present(s.drop_last(), x);
        let k = choose|k: int| 0 <= k < s.len() - 1 && s.drop_last()[k] == x;
        assert(s[k] == x);
    }
}

/// Counts that meet `counts_of` fit: no status occurs more than `usize::MAX` times.
proof fn lemma_counts_fit(counts: Seq<StatusCount>, statuses: Seq<Seq<char>>, x: Seq<char>)
    requires
        counts_of(counts_view(counts), statuses),
    ensures
        occurrences(statuses, x) <= usize::MAX,
{
    if occurrences(statuses, x) > 0 {
        lemma_occurrences_present(statuses, x);
        let k = choose|k: int| 0 <= k < statuses.len() && statuses[k] == x;
        let i = choose|i: int|
            0 <= i < counts_view(counts).len() && (#[trigger] counts_view(counts)[i]).0
                == #[trigger] statuses[k];
        assert(counts_view(counts)[i] == counts[i]@);
    }
}

fn add_status(
    counts: &mut Vec<StatusCount>,
    keys: &mut Vec<Vec<char>>,
    status: &String,
    Ghost(seen): Ghost<Seq<Seq<char>>>,
) -> (counted: bool)
    requires
        counts_of(counts_view(old(counts)@), seen),
        old(keys)@.len() == old(counts)@.len(),
        forall|i: int| 0 <= i < old(keys)@.len() ==> (#[trigger] old(keys)@[i])@ == old(counts)@[i].status@,
    ensures
        counted ==> counts_of(counts_view(final(counts)@), seen.push(status@)),
        !counted ==> occurrences(seen.push(status@), status@) > usize::MAX,
        final(keys)@.len() == final(counts)@.len(),
        forall|i: int| 0 <= i < final(keys)@.len() ==> (#[trigger] final(keys)@[i])@ == final(counts)@[i].status@,
{
    let ghost x = status@;
    let ghost cv = counts_view(counts@);
    let ghost st = seen.push(x);
    assert(st.drop_last() =~= seen);
    let key = chars_of(status.as_str());
    let mut pos: usize = 0;
    while pos < keys.len() && lex_less(&keys[pos], &key)
        invariant
            pos <= keys@.len(),
            keys@.len() == counts@.len(),
            cv == counts_view(counts@),
            key@ == x,
            forall|i: int| 0 <= i < keys@.len() ==> (#[trigger] keys@[i])@ == counts@[i].status@,
            forall|i: int| 0 <= i < pos ==> lex_lt((#[trigger] cv[i]).0, x),
        decreases keys@.len() - pos,
    {
        pos = pos + 1;
    }
    assert(forall|i: int| 0 <= i < cv.len() ==> #[trigger] cv[i] == counts@[i]@);
    if pos < counts.len() && counts[pos].status == *status {
        if counts[pos].count == usize::MAX {
            return false;
        }
        let mut c = counts.remove(pos);
        c.count = c.count + 1;
        counts.insert(pos, c);
        proof {
            let nv = counts_view(counts@);
            assert(nv =~= cv.update(pos as int, (x, cv[pos as int].1 + 1)));
            assert forall|i: int| 0 <= i < nv.len() implies (#[trigger] nv[i]).1 == occurrences(
                st,
                nv[i].0,
            ) && nv[i].1 > 0 by {
                if i != pos {
                    if i < pos {
                        assert(lex_lt(cv[i].0, cv[pos as int].0));
                    } else {
                        assert(lex_lt(cv[pos as int].0, cv[i].0));
                    }
                    lemma_lex_irreflexive(x);
                }
            }
            assert forall|k: int| 0 <= k < st.len() implies exists|i: int|
                0 <= i < nv.len() && (#[trigger] nv[i]).0 == #[trigger] st[k] by {
                if k < seen.len() {
                    let i = choose|i: int| 0 <= i < cv.len() && (#[trigger] cv[i]).0 == seen[k];
                    assert(nv[i].0 == st[k]);
                } else {
                    assert(nv[pos as int].0 == st[k]);
                }
            }
        }
    } else {
        proof {
            if pos < cv.len() {
                assert(!lex_lt(cv[pos as int].0, x));
                assert(cv[pos as int].0 != x);
                lemma_lex_total(cv[pos as int].0, x);
            }
            assert forall|i: int| 0 <= i < cv.len() implies (#[trigger] cv[i]).0 != x by {
                if i < pos {
                    lemma_lex_irreflexive(x);
                } else {
                    lemma_lex_irreflexive(x);
                    if i > pos {
                        lemma_lex_transitive(x, cv[pos as int].0, cv[i].0);
                    }
                }
            }
            assert forall|k: int| 0 <= k < seen.len() implies #[trigger] seen[k] != x by {
                let i = choose|i: int| 0 <= i < cv.len() && (#[trigger] cv[i]).0 == seen[k];
            }
            lemma_not_present(seen, x);
        }
        counts.insert(pos, StatusCount { status: status.clone(), count: 1 });
        keys.insert(pos, key);
        proof {
            let nv = counts_view(counts@);
            assert(nv =~= cv.insert(pos as int, (x, 1nat)));
            assert forall|i: int, j: int| 0 <= i < j < nv.len() implies lex_lt(
                (#[trigger] nv[i]).0,
                (#[trigger] nv[j]).0,
            ) by {
                if i == pos {
                    if j - 1 > pos {
                        lemma_lex_transitive(x, cv[pos as int].0, cv[j - 1].0);
                    }
                } else if j == pos {
                } else {
                    let ii = if i < pos { i } else { i - 1 };
                    let jj = if j < pos { j } else { j - 1 };
                    assert(nv[i] == cv[ii]);
                    assert(nv[j] == cv[jj]);
                }
            }
            assert forall|i: int| 0 <= i < nv.len() implies (#[trigger] nv[i]).1 == occurrences(
                st,
                nv[i].0,
            ) && nv[i].1 > 0 by {
                if i < pos {
                    assert(nv[i] == cv[i]);
                } else if i > pos {
                    assert(nv[i] == cv[i - 1]);
                }
            }
            assert forall|k: int| 0 <= k < st.len() implies exists|i: int|
                0 <= i < nv.len() && (#[trigger] nv[i]).0 == #[trigger] st[k] by {
                if k < seen.len() {
                    let i = choose|i: int| 0 <= i < cv.len() && (#[trigger] cv[i]).0 == seen[k];
                    if i < pos {
                        assert(nv[i].0 == st[k]);
                    } else {
                        assert(nv[i + 1].0 == st[k]);
                    }
                } else {
                    assert(nv[pos as int].0 == st[k]);
                }
            }
        }
    }
    true
}

proof fn lemma_not_present(s: Seq<Seq<char>>, x: Seq<char>)
    requires
        forall|k: int| 0 <= k < s.len() ==> #[trigger] s[k] != x,
    ensures
        occurrences(s, x) == 0,
    decreases s.len(),
{
    if s.len() > 0 {
        lemma_not_present(s.drop_last(), x);
    }
}

proof fn lemma_statuses_prefix(
    pkgs: Seq<PackageView>,
    idx: Seq<EntryView>,
    name_filter: Option<Seq<char>>,
    status_filter: Option<Seq<char>>,
    k: int,
    x: Seq<char>,
)
    requires
        0 <= k <= pkgs.len(),
    ensures
        occurrences(displayed_statuses(pkgs.subrange(0, k), idx, name_filter, status_filter), x)
            <= occurrences(displayed_statuses(pkgs, idx, name_filter, status_filter), x),
    decreases pkgs.len() - k,
{
    if k < pkgs.len() {
        lemma_statuses_prefix(pkgs, idx, name_filter, status_filter, k + 1, x);
        assert(pkgs.subrange(0, k + 1).drop_last() =~= pkgs.subrange(0, k));
        lemma_occurrences_append(
            displayed_statuses(pkgs.subrange(0, k), idx, name_filter, status_filter),
            statuses_of(idx, pkgs[k].0),
            x,
        );
    } else {
        assert(pkgs.subrange(0, k) =~= pkgs);
    }
}

fn any_status_contains(v: &Vec<DexOptInfo>, f: &Vec<char>) -> (r: bool)
    ensures
        r == some_status_contains(records_view(v@), f@),
{
    let ghost recs = records_view(v@);
    let mut j: usize = 0;
    while j < v.len()
        invariant
            j <= v@.len(),
            recs == records_view(v@),
            forall|i: int| 0 <= i < j ==> !contains_seq((#[trigger] recs[i]).1, f@),
        decreases v@.len() - j,
    {
        if contains_chars(&chars_of(v[j].status.as_str()), f) {
            assert(contains_seq(recs[j as int].1, f@));
            return true;
        }
        j = j + 1;
    }
    false
}

/// Applies the name and status filters to `packages` and counts, per status,
/// the records of every package that is shown. `None` exactly when some status
/// occurs among those records more often than a `usize` can count.
pub fn select(
    packages: &Vec<Package>,
    analyzer: &Analyzer,
    name_filter: Option<&str>,
    status_filter: Option<&str>,
) -> (r: Option<Selection>)
    ensures
        r is None <==> exists|x: Seq<char>|
            occurrences(
                displayed_statuses(
                    packages_view(packages@),
                    analyzer@,
                    opt_view(name_filter),
                    opt_view(status_filter),
                ),
                x,
            ) > usize::MAX,
        r matches Some(sel) ==> {
            &&& packages_view(sel.displayed@) == displayed_packages(
                packages_view(packages@),
                analyzer@,
                opt_view(name_filter),
                opt_view(status_filter),
            )
            &&& counts_of(
                counts_view(sel.counts@),
                displayed_statuses(
                    packages_view(packages@),
                    analyzer@,
                    opt_view(name_filter),
                    opt_view(status_filter),
                ),
            )
            &&& sel.total_displayed == sel.displayed@.len()
        },
{
    let ghost pv = packages_view(packages@);
    let ghost idx = analyzer@;
    let ghost nf = opt_view(name_filter);
    let ghost sf = opt_view(status_filter);
    let ghost all = displayed_statuses(pv, idx, nf, sf);
    let name_chars: Option<Vec<char>> = match name_filter {
        Some(f) => Some(chars_of(f)),
        None => None,
    };
    let status_chars: Option<Vec<char>> = match status_filter {
        Some(f) => Some(chars_of(f)),
        None => None,
    };
    let mut displayed: Vec<Package> = Vec::new();
    let mut counts: Vec<StatusCount> = Vec::new();
    let mut keys: Vec<Vec<char>> = Vec::new();
    let mut total: usize = 0;
    let mut k: usize = 0;
    proof {
        assert(pv.subrange(0, 0) =~= Seq::<PackageView>::empty());
        assert(packages_view(displayed@) =~= Seq::<PackageView>::empty());
        assert(counts_view(counts@) =~= Seq::<(Seq<char>, nat)>::empty());
    }
    while k < packages.len()
        invariant
            k <= packages@.len(),
            pv == packages_view(packages@),
            idx == analyzer@,
            nf == opt_view(name_filter),
            sf == opt_view(status_filter),
            all == displayed_statuses(pv, idx, nf, sf),
            match name_chars {
                Some(c) => nf == Some(c@),
                None => nf is None,
            },
            match status_chars {
                Some(c) => sf == Some(c@),
                None => sf is None,
            },
            packages_view(displayed@) == displayed_packages(pv.subrange(0, k as int), idx, nf, sf),
            total == displayed@.len(),
            displayed@.len() <= k,
            keys@.len() == counts@.len(),
            forall|i: int| 0 <= i < keys@.len() ==> (#[trigger] keys@[i])@ == counts@[i].status@,
            counts_of(counts_view(counts@), displayed_statuses(pv.subrange(0, k as int), idx, nf, sf)),
        decreases packages@.len() - k,
    {
        let ghost prefix = pv.subrange(0, k + 1);
        proof {
            assert(prefix.drop_last() =~= pv.subrange(0, k as int));
            assert(prefix.last() == packages@[k as int]@);
        }
        let pkg = &packages[k];
        let name_ok = match &name_chars {
            Some(f) => contains_chars(&chars_of(pkg.name.as_str()), f),
            None => true,
        };
        let info = analyzer.get_info(pkg.name.as_str());
        let status_ok = match &status_chars {
            Some(f) => match info {
                Some(v) => any_status_contains(v, f),
                None => false,
            },
            None => true,
        };
        if name_ok && status_ok {
            let ghost before = packages_view(displayed@);
            displayed.push(Package { name: pkg.name.clone(), path: pkg.path.clone() });
            total = total + 1;
            proof {
                assert(packages_view(displayed@) =~= before.push(pkg@));
            }
            match info {
                Some(v) => {
                    let ghost base = displayed_statuses(pv.subrange(0, k as int), idx, nf, sf);
                    let ghost added = statuses_of(idx, pkg.name@);
                    assert(added =~= records_view(v@).map_values(|r: RecordView| r.1));
                    assert(base + added.subrange(0, 0) =~= base);
                    let mut j: usize = 0;
                    while j < v.len()
                        invariant
                            j <= v@.len(),
                            pv == packages_view(packages@),
                            idx == analyzer@,
                            nf == opt_view(name_filter),
                            sf == opt_view(status_filter),
                            k < pv.len(),
                            prefix == pv.subrange(0, k + 1),
                            all == displayed_statuses(pv, idx, nf, sf),
                            added == records_view(v@).map_values(|r: RecordView| r.1),
                            base + added == displayed_statuses(prefix, idx, nf, sf),
                            keys@.len() == counts@.len(),
                            forall|i: int|
                                0 <= i < keys@.len() ==> (#[trigger] keys@[i])@ == counts@[i].status@,
                            counts_of(counts_view(counts@), base + added.subrange(0, j as int)),
                        decreases v@.len() - j,
                    {
                        let ghost seen = base + added.subrange(0, j as int);
                        let counted = add_status(&mut counts, &mut keys, &v[j].status, Ghost(seen));
                        proof {
                            assert(seen.push(v@[j as int].status@) =~= base + added.subrange(0, j + 1));
                        }
                        if !counted {
                            proof {
                                let x = v@[j as int].status@;
                                assert(base + added =~= (base + added.subrange(0, j + 1))
                                    + added.subrange(j + 1, added.len() as int));
                                lemma_occurrences_append(
                                    base + added.subrange(0, j + 1),
                                    added.subrange(j + 1, added.len() as int),
                                    x,
                                );
                                lemma_statuses_prefix(pv, idx, nf, sf, k + 1, x);
                                assert(occurrences(all, x) > usize::MAX);
                                assert(exists|y: Seq<char>|
                                    occurrences(
                                        displayed_statuses(
                                            packages_view(packages@),
                                            analyzer@,
                                            opt_view(name_filter),
                                            opt_view(status_filter),
                                        ),
                                        y,
                                    ) > usize::MAX);
                            }
                            return None;
                        }
                        j = j + 1;
                    }
                    assert(added.subrange(0, j as int) =~= added);
                },
                None => {
                    assert(statuses_of(idx, pkg.name@) =~= Seq::<Seq<char>>::empty());
                    assert(displayed_statuses(prefix, idx, nf, sf) =~= displayed_statuses(
                        pv.subrange(0, k as int),
                        idx,
                        nf,
                        sf,
                    ));
                },
            }
        }
        k = k + 1;
    }
    assert(pv.subrange(0, k as int) =~= pv);
    proof {
        assert forall|x: Seq<char>| occurrences(all, x) <= usize::MAX by {
            lemma_counts_fit(counts@, all, x);
        }
    }
    Some(Selection { displayed, counts, total_displayed: total })
}

/// The package has records, and the status of one of them contains `f`.
pub open spec fn has_status_containing(idx: Seq<EntryView>, p: PackageView, f: Seq<char>) -> bool {
    match lookup(idx, p.0) {
        Some(recs) => some_status_contains(recs, f),
        None => false,
    }
}

/// Adding the status filter `f` keeps, of the packages that the name filter
/// alone shows, exactly those that have a record whose status contains `f`,
/// in the same order.
pub proof fn lemma_status_filter_narrows(
    pkgs: Seq<PackageView>,
    idx: Seq<EntryView>,
    name_filter: Option<Seq<char>>,
    f: Seq<char>,
)
    ensures
        displayed_packages(pkgs, idx, name_filter, Some(f)) == displayed_packages(
            pkgs,
            idx,
            name_filter,
            None,
        ).filter(|p: PackageView| has_status_containing(idx, p, f)),
    decreases pkgs.len(),
{
    let pred = |p: PackageView| has_status_containing(idx, p, f);
    if pkgs.len() == 0 {
        reveal(Seq::filter);
        assert(displayed_packages(pkgs, idx, name_filter, None).filter(pred) =~= Seq::empty());
    } else {
        lemma_status_filter_narrows(pkgs.drop_last(), idx, name_filter, f);
        let before = displayed_packages(pkgs.drop_last(), idx, name_filter, None);
        before.lemma_filter_push(pkgs.last(), pred);
    }
}

proof fn lemma_occurrences_concat(a: Seq<Seq<char>>, b: Seq<Seq<char>>, x: Seq<char>)
    ensures
        occurrences(a + b, x) == occurrences(a, x) + occurrences(b, x),
    decreases b.len(),
{
    if b.len() == 0 {
        assert(a + b =~= a);
    } else {
        assert((a + b).drop_last() =~= a + b.drop_last());
        lemma_occurrences_concat(a, b.drop_last(), x);
    }
}

/// Counts add up over packages: listing one more package `p` adds to the count
/// of a status exactly the records of `p` with that status, if `p` is shown,
/// and nothing otherwise.
pub proof fn lemma_counts_add_up(
    pkgs: Seq<PackageView>,
    p: PackageView,
    idx: Seq<EntryView>,
    name_filter: Option<Seq<char>>,
    status_filter: Option<Seq<char>>,
    x: Seq<char>,
)
    ensures
        occurrences(displayed_statuses(pkgs.push(p), idx, name_filter, status_filter), x)
            == occurrences(displayed_statuses(pkgs, idx, name_filter, status_filter), x) + if is_displayed(
            p,
            idx,
            name_filter,
            status_filter,
        ) {
            occurrences(statuses_of(idx, p.0), x)
        } else {
            0
        },
{
    assert(pkgs.push(p).drop_last() =~= pkgs);
    lemma_occurrences_concat(
        displayed_statuses(pkgs, idx, name_filter, status_filter),
        statuses_of(idx, p.0),
        x,
    );
}

} // verus!
