//! The package listing: `package:<path>=<name>` lines, read into packages
//! ordered by name.
use vstd::prelude::*;
use vstd::relations::sorted_by;
use crate::text::{
    chars_of, lemma_lex_irreflexive, lemma_lex_transitive, lex_less, lex_lt, lines_of, lines_view,
    split_lines, string_of_range, trim_chars, trimmed,
};

verus! {

/// A package as the contracts see it: its name, then its install path.
pub type PackageView = (Seq<char>, Seq<char>);

/// Which installed packages the listing asks for.
#[derive(Clone, Copy, Debug, PartialEq, Eq, Structural)]
pub enum AppType {
    User,
    System,
    All,
}

impl AppType {
    /// The option of the package manager's `list packages` that picks this
    /// kind of package; empty where no option is needed.
    pub fn listing_flag(self) -> (r: &'static str)
        ensures
            r@ == match self {
                AppType::User => seq!['-', '3'],
                AppType::System => seq!['-', 's'],
                AppType::All => Seq::<char>::empty(),
            },
    {
        match self {
            AppType::User => {
                proof {
                    reveal_strlit("-3");
                }
                "-3"
            },
            AppType::System => {
                proof {
                    reveal_strlit("-s");
                }
                "-s"
            },
            AppType::All => {
                proof {
                    reveal_strlit("");
                }
                ""
            },
        }
    }

    /// The name under which this kind is shown.
    pub fn name(self) -> (r: &'static str)
        ensures
            r@ == match self {
                AppType::User => seq!['U', 's', 'e', 'r'],
                AppType::System => seq!['S', 'y', 's', 't', 'e', 'm'],
                AppType::All => seq!['A', 'l', 'l'],
            },
    {
        match self {
            AppType::User => {
                proof {
                    reveal_strlit("User");
                }
                "User"
            },
            AppType::System => {
                proof {
                    reveal_strlit("System");
                }
                "System"
            },
            AppType::All => {
                proof {
                    reveal_strlit("All");
                }
                "All"
            },
        }
    }
}

/// An installed package: its reverse-DNS name and the path of its artifact.
pub struct Package {
    pub name: String,
    pub path: String,
}

impl View for Package {
    type V = PackageView;

    open spec fn view(&self) -> PackageView {
        (self.name@, self.path@)
    }
}

pub open spec fn packages_view(v: Seq<Package>) -> Seq<PackageView> {
    v.map_values(|p: Package| p@)
}

pub open spec fn listing_prefix() -> Seq<char> {
    seq!['p', 'a', 'c', 'k', 'a', 'g', 'e', ':']
}

/// Position of the last `c` in `s[0..j]`, if any.
pub open spec fn find_last_char(s: Seq<char>, c: char, j: int) -> Option<int>
    decreases j,
{
    if j <= 0 || j > s.len() {
        None
    } else if s[j - 1] == c {
        Some(j - 1)
    } else {
        find_last_char(s, c, j - 1)
    }
}

/// The package that one listing line names: after the `package:` prefix of
/// the trimmed line, the path runs up to the last `=` and the name follows it,
/// each trimmed.
pub open spec fn listing_entry(line: Seq<char>) -> Option<PackageView> {
    let t = trimmed(line);
    let n = listing_prefix().len() as int;
    if t.len() >= n && t.subrange(0, n) == listing_prefix() {
        let p = t.subrange(n, t.len() as int);
        match find_last_char(p, '=', p.len() as int) {
            Some(i) => Some((trimmed(p.subrange(i + 1, p.len() as int)), trimmed(p.subrange(0, i)))),
            None => None,
        }
    } else {
        None
    }
}

/// The packages that the lines `ls` name, in listing order.
pub open spec fn listing_entries(ls: Seq<Seq<char>>) -> Seq<PackageView>
    decreases ls.len(),
{
    if ls.len() == 0 {
        Seq::empty()
    } else {
        match listing_entry(ls.last()) {
            Some(e) => listing_entries(ls.drop_last()).push(e),
            None => listing_entries(ls.drop_last()),
        }
    }
}

/// `a` comes no later than `b` in name order.
pub open spec fn name_le(a: PackageView, b: PackageView) -> bool {
    !lex_lt(b.0, a.0)
}

fn entry_of_line(line: &Vec<char>) -> (r: Option<Package>)
    ensures
        match r {
            Some(p) => listing_entry(line@) == Some(p@),
            None => listing_entry(line@) is None,
        },
{
    let t = trim_chars(line);
    let prefix: Vec<char> = vec!['p', 'a', 'c', 'k', 'a', 'g', 'e', ':'];
    assert(prefix@ =~= listing_prefix());
    let n = prefix.len();
    if t.len() < n {
        return None;
    }
    let mut k: usize = 0;
    while k < n
        invariant
            k <= n == prefix@.len() <= t@.len(),
            prefix@ == listing_prefix(),
            t@ == trimmed(line@),
            forall|j: int| 0 <= j < k ==> t@[j] == prefix@[j],
        decreases n - k,
    {
        if t[k] != prefix[k] {
            assert(t@.subrange(0, n as int)[k as int] != listing_prefix()[k as int]);
            return None;
        }
        k = k + 1;
    }
    assert(t@.subrange(0, n as int) =~= listing_prefix());
    let ghost p = t@.subrange(n as int, t@.len() as int);
    let mut j = t.len();
    while j > n
        invariant
            n <= j <= t@.len(),
            n == listing_prefix().len(),
            t@ == trimmed(line@),
            t@.subrange(0, n as int) == listing_prefix(),
            p == t@.subrange(n as int, t@.len() as int),
            find_last_char(p, '=', (j - n) as int) == find_last_char(p, '=', p.len() as int),
        decreases j,
    {
        if t[j - 1] == '=' {
            let path_raw = string_of_range(&t, n, j - 1);
            let name_raw = string_of_range(&t, j, t.len());
            assert(path_raw@ =~= p.subrange(0, (j - 1 - n) as int));
            assert(name_raw@ =~= p.subrange((j - n) as int, p.len() as int));
            let path_chars = trim_chars(&chars_of(path_raw.as_str()));
            let name_chars = trim_chars(&chars_of(name_raw.as_str()));
            let path = string_of_range(&path_chars, 0, path_chars.len());
            let name = string_of_range(&name_chars, 0, name_chars.len());
            assert(path_chars@.subrange(0, path_chars@.len() as int) =~= path_chars@);
            assert(name_chars@.subrange(0, name_chars@.len() as int) =~= name_chars@);
            return Some(Package { name, path });
        }
        j = j - 1;
    }
    None
}

/// The entries of `s` named `n`, in the order of `s`.
pub open spec fn with_name(s: Seq<PackageView>, n: Seq<char>) -> Seq<PackageView>
    decreases s.len(),
{
    if s.len() == 0 {
        Seq::empty()
    } else if s.last().0 == n {
        with_name(s.drop_last(), n).push(s.last())
    } else {
        with_name(s.drop_last(), n)
    }
}

proof fn lemma_with_name_concat(a: Seq<PackageView>, b: Seq<PackageView>, n: Seq<char>)
    ensures
        with_name(a + b, n) == with_name(a, n) + with_name(b, n),
    decreases b.len(),
{
    if b.len() == 0 {
        assert(a + b =~= a);
        assert(with_name(a, n) + with_name(b, n) =~= with_name(a, n));
    } else {
        assert((a + b).drop_last() =~= a + b.drop_last());
        lemma_with_name_concat(a, b.drop_last(), n);
        if b.last().0 == n {
            assert(with_name(a, n) + with_name(b.drop_last(), n).push(b.last()) =~= (with_name(
                a,
                n,
            ) + with_name(b.drop_last(), n)).push(b.last()));
        }
    }
}

proof fn lemma_with_name_none(b: Seq<PackageView>, n: Seq<char>)
    requires
        forall|i: int| 0 <= i < b.len() ==> (#[trigger] b[i]).0 != n,
    ensures
        with_name(b, n) == Seq::<PackageView>::empty(),
    decreases b.len(),
{
    if b.len() > 0 {
        lemma_with_name_none(b.drop_last(), n);
    }
}

proof fn lemma_insert_with_name(s: Seq<PackageView>, pos: int, x: PackageView, n: Seq<char>)
    requires
        0 <= pos <= s.len(),
        forall|i: int| pos <= i < s.len() ==> (#[trigger] s[i]).0 != x.0,
    ensures
        with_name(s.insert(pos, x), n) == if x.0 == n {
            with_name(s, n).push(x)
        } else {
            with_name(s, n)
        },
{
    let a = s.subrange(0, pos);
    let b = s.subrange(pos, s.len() as int);
    assert(s.insert(pos, x) =~= a.push(x) + b);
    assert(s =~= a + b);
    assert(a.push(x).drop_last() =~= a);
    lemma_with_name_concat(a.push(x), b, n);
    lemma_with_name_concat(a, b, n);
    if x.0 == n {
        assert forall|i: int| 0 <= i < b.len() implies (#[trigger] b[i]).0 != n by {
            assert(b[i] == s[pos + i]);
        }
        lemma_with_name_none(b, n);
        assert(with_name(a, n) + with_name(b, n) =~= with_name(a, n));
        assert(with_name(a, n).push(x) + with_name(b, n) =~= with_name(a, n).push(x));
    }
}

proof fn lemma_insert_multiset(s: Seq<PackageView>, pos: int, x: PackageView)
    requires
        0 <= pos <= s.len(),
    ensures
        s.insert(pos, x).to_multiset() =~= s.to_multiset().insert(x),
{
    broadcast use vstd::seq_lib::group_to_multiset_ensures;

    let q = s.insert(pos, x);
    assert(q.remove(pos) =~= s);
    assert(q[pos] == x);
    assert(q.contains(x));
}

/// Reads the package listing: one package for each line of the form
/// `package:<path>=<name>`, ordered by name; packages of the same name keep
/// their listing order.
pub fn parse_package_list(raw: &str) -> (r: Vec<Package>)
    ensures
        sorted_by(packages_view(r@), |a: PackageView, b: PackageView| name_le(a, b)),
        packages_view(r@).to_multiset() == listing_entries(split_lines(raw@)).to_multiset(),
        forall|n: Seq<char>|
            #[trigger] with_name(packages_view(r@), n) == with_name(
                listing_entries(split_lines(raw@)),
                n,
            ),
{
    let lines = lines_of(raw);
    let mut sorted: Vec<Package> = Vec::new();
    let mut keys: Vec<Vec<char>> = Vec::new();
    let mut k: usize = 0;
    let ghost leq = |a: PackageView, b: PackageView| name_le(a, b);
    proof {
        assert(lines_view(lines@).subrange(0, 0) =~= Seq::<Seq<char>>::empty());
        assert(packages_view(sorted@) =~= Seq::<PackageView>::empty());
    }
    while k < lines.len()
        invariant
            k <= lines@.len(),
            lines_view(lines@) == split_lines(raw@),
            keys@.len() == sorted@.len(),
            forall|i: int| 0 <= i < keys@.len() ==> (#[trigger] keys@[i])@ == sorted@[i].name@,
            forall|i: int, j: int|
                0 <= i < j < sorted@.len() ==> name_le(
                    (#[trigger] sorted@[i])@,
                    (#[trigger] sorted@[j])@,
                ),
            packages_view(sorted@).to_multiset() == listing_entries(
                lines_view(lines@).subrange(0, k as int),
            ).to_multiset(),
            forall|n: Seq<char>|
                #[trigger] with_name(packages_view(sorted@), n) == with_name(
                    listing_entries(lines_view(lines@).subrange(0, k as int)),
                    n,
                ),
        decreases lines@.len() - k,
    {
        let ghost prefix = lines_view(lines@).subrange(0, k + 1);
        assert(prefix.drop_last() =~= lines_view(lines@).subrange(0, k as int));
        assert(prefix.last() == lines@[k as int]@);
        match entry_of_line(&lines[k]) {
            Some(pkg) => {
                let key = chars_of(pkg.name.as_str());
                let mut pos: usize = 0;
                while pos < keys.len() && !lex_less(&key, &keys[pos])
                    invariant
                        pos <= keys@.len(),
                        keys@.len() == sorted@.len(),
                        forall|i: int| 0 <= i < keys@.len() ==> (#[trigger] keys@[i])@ == sorted@[i].name@,
                        forall|i: int| 0 <= i < pos ==> !lex_lt(key@, (#[trigger] sorted@[i]).name@),
                    decreases keys@.len() - pos,
                {
                    pos = pos + 1;
                }
                let ghost old_view = packages_view(sorted@);
                let ghost pv = pkg@;
                let ghost old_sorted = sorted@;
                sorted.insert(pos, pkg);
                keys.insert(pos, key);
                proof {
                    assert(packages_view(sorted@) =~= old_view.insert(pos as int, pv));
                    lemma_insert_multiset(old_view, pos as int, pv);
                    assert forall|i: int| pos <= i < old_view.len() implies (#[trigger] old_view[i]).0
                        != pv.0 by {
                        assert(old_view[i] == old_sorted[i]@);
                        assert(lex_lt(pv.0, old_sorted[pos as int].name@));
                        if i > pos {
                            assert(name_le(old_sorted[pos as int]@, old_sorted[i]@));
                        } else {
                            lemma_lex_irreflexive(pv.0);
                        }
                    }
                    let ghost prev = listing_entries(prefix.drop_last());
                    assert(prev.push(pv).drop_last() =~= prev);
                    assert forall|n: Seq<char>| #[trigger] with_name(packages_view(sorted@), n)
                        == with_name(listing_entries(prefix), n) by {
                        lemma_insert_with_name(old_view, pos as int, pv, n);
                    }
                    listing_entries(prefix.drop_last()).to_multiset_ensures();
                    assert forall|i: int, j: int|
                        0 <= i < j < sorted@.len() implies name_le(
                        (#[trigger] sorted@[i])@,
                        (#[trigger] sorted@[j])@,
                    ) by {
                        if j == pos {
                            assert(sorted@[i] == old_sorted[i]);
                        } else if i == pos {
                            let b = old_sorted[pos as int].name@;
                            let c = old_sorted[j - 1].name@;
                            assert(lex_lt(pv.0, b));
                            if j - 1 > pos {
                                assert(name_le(old_sorted[pos as int]@, old_sorted[j - 1]@));
                            }
                            if lex_lt(c, pv.0) {
                                lemma_lex_transitive(c, pv.0, b);
                                if j - 1 == pos {
                                    lemma_lex_irreflexive(c);
                                }
                            }
                        } else {
                            let ii = if i < pos { i } else { i - 1 };
                            let jj = if j < pos { j } else { j - 1 };
                            assert(sorted@[i] == old_sorted[ii]);
                            assert(sorted@[j] == old_sorted[jj]);
                        }
                    }
                }
            },
            None => {},
        }
        k = k + 1;
    }
    assert(lines_view(lines@).subrange(0, k as int) =~= lines_view(lines@));
    sorted
}

} // verus!
