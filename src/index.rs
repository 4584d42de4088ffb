use vstd::prelude::*;

use crate::order::{
    lemma_lt_irreflexive, lemma_lt_total, lemma_lt_transitive, seq_lt, str_lt, strictly_sorted,
};
use crate::text::{has_prefix, starts_with_str};

verus! {

/// The characters of each string.
pub open spec fn names(v: Seq<String>) -> Seq<Seq<char>> {
    v.map_values(|s: String| s@)
}

/// The directories searched whatever the search path says.
pub open spec fn fallback_dirs() -> Seq<Seq<char>> {
    seq![
        "/usr/bin"@,
        "/usr/local/bin"@,
        "/bin"@,
        "/snap/bin"@,
        "/var/lib/flatpak/exports/bin"@,
        "/sbin"@,
        "/usr/sbin"@,
    ]
}

/// `dirs` followed by each of `extra`, in order, that is not already listed.
pub open spec fn append_missing(dirs: Seq<Seq<char>>, extra: Seq<Seq<char>>) -> Seq<Seq<char>>
    decreases extra.len(),
{
    if extra.len() == 0 {
        dirs
    } else {
        let next = if dirs.contains(extra[0]) {
            dirs
        } else {
            dirs.push(extra[0])
        };
        append_missing(next, extra.drop_first())
    }
}

/// The directories to scan: those of the search path, then each fallback
/// directory that the search path lacks.
pub open spec fn scan_dirs_of(path_dirs: Seq<Seq<char>>) -> Seq<Seq<char>> {
    append_missing(path_dirs, fallback_dirs())
}

/// Whether a directory entry counts as a launchable program: any entry that is
/// not a directory and whose name does not start with a dot.
pub open spec fn is_listed(name: Seq<char>, is_dir: bool) -> bool {
    !is_dir && !has_prefix(name, "."@)
}

/// The names of the entries that count as launchable programs.
pub open spec fn listed_names(entries: Seq<(String, bool)>) -> Set<Seq<char>> {
    Set::new(
        |x: Seq<char>|
            exists|i: int|
                0 <= i < entries.len() && is_listed(#[trigger] entries[i].0@, entries[i].1)
                    && entries[i].0@ == x,
    )
}

/// `index` lists the names of `entries` that count, each once, in byte order.
pub open spec fn is_index_of(entries: Seq<(String, bool)>, index: Seq<Seq<char>>) -> bool {
    strictly_sorted(index) && index.to_set() == listed_names(entries)
}

fn fallback_dir(i: usize) -> (r: &'static str)
    requires
        i < 7,
    ensures
        r@ == fallback_dirs()[i as int],
{
    if i == 0 {
        "/usr/bin"
    } else if i == 1 {
        "/usr/local/bin"
    } else if i == 2 {
        "/bin"
    } else if i == 3 {
        "/snap/bin"
    } else if i == 4 {
        "/var/lib/flatpak/exports/bin"
    } else if i == 5 {
        "/sbin"
    } else {
        "/usr/sbin"
    }
}

/// Whether `v` holds a string equal to `s`.
fn contains_string(v: &Vec<String>, s: &String) -> (r: bool)
    ensures
        r == names(v@).contains(s@),
{
    let mut i: usize = 0;
    while i < v.len()
        invariant
            0 <= i <= v@.len(),
            forall|k: int| 0 <= k < i ==> (#[trigger] v@[k])@ != s@,
        decreases v@.len() - i,
    {
        if v[i] == *s {
            assert(names(v@)[i as int] == s@);
            return true;
        }
        i = i + 1;
    }
    proof {
        if names(v@).contains(s@) {
            let k = choose|k: int| 0 <= k < names(v@).len() && names(v@)[k] == s@;
            assert(v@[k]@ == s@);
        }
    }
    false
}

/// The directories to scan for programs: those of the search path in their
/// order, then each fallback directory that the search path does not name.
pub fn scan_dirs(path_dirs: Vec<String>) -> (r: Vec<String>)
    ensures
        names(r@) == scan_dirs_of(names(path_dirs@)),
{
    let mut dirs = path_dirs;
    let mut i: usize = 0;
    assert(fallback_dirs().subrange(0, 7) =~= fallback_dirs());
    assert(names(dirs@) == names(path_dirs@));
    while i < 7
        invariant
            0 <= i <= 7,
            scan_dirs_of(names(path_dirs@)) == append_missing(
                names(dirs@),
                fallback_dirs().subrange(i as int, 7),
            ),
        decreases 7 - i,
    {
        let d = fallback_dir(i);
        proof {
            let rest = fallback_dirs().subrange(i as int, 7);
            assert(rest[0] == d@);
            assert(rest.drop_first() =~= fallback_dirs().subrange(i + 1, 7));
        }
        let ds = String::from_str(d);
        if !contains_string(&dirs, &ds) {
            let ghost before = dirs@;
            dirs.push(ds);
            assert(names(dirs@) =~= names(before).push(d@));
        }
        i = i + 1;
    }
    assert(fallback_dirs().subrange(7, 7) =~= Seq::<Seq<char>>::empty());
    dirs
}

/// Whether a directory entry named `name` counts as a launchable program.
pub fn is_listed_entry(name: &str, is_dir: bool) -> (r: bool)
    ensures
        r == is_listed(name@, is_dir),
{
    let dot = ".";
    !is_dir && !starts_with_str(name, dot)
}


/// Adds `name` to a strictly sorted list of names unless it is there already.
pub fn insert_name(index: &mut Vec<String>, name: String)
    requires
        strictly_sorted(names(old(index)@)),
    ensures
        strictly_sorted(names(final(index)@)),
        names(final(index)@).to_set() == names(old(index)@).to_set().insert(name@),
{
    let ghost s = names(index@);
    let mut i: usize = 0;
    while i < index.len() && str_lt(index[i].as_str(), name.as_str())
        invariant
            s == names(index@),
            strictly_sorted(s),
            0 <= i <= index@.len(),
            forall|k: int| 0 <= k < i ==> seq_lt(#[trigger] s[k], name@),
        decreases index@.len() - i,
    {
        i = i + 1;
    }
    if i < index.len() && index[i] == name {
        proof {
            assert(s[i as int] == name@);
            assert(s.to_set().insert(name@) =~= s.to_set());
        }
        return;
    }
    proof {
        if i < s.len() {
            lemma_lt_total(s[i as int], name@);
        }
    }
    index.insert(i, name);
    proof {
        let t = names(index@);
        assert(t =~= s.insert(i as int, name@));
        assert forall|p: int, q: int| 0 <= p < q < t.len() implies seq_lt(
            #[trigger] t[p],
            #[trigger] t[q],
        ) by {
            if q == i {
            } else if p == i {
                if q - 1 > i {
                    assert(seq_lt(s[i as int], s[q - 1]));
                    lemma_lt_transitive(name@, s[i as int], s[q - 1]);
                }
            } else if p < i && q > i {
                assert(seq_lt(s[p], name@));
                assert(seq_lt(name@, s[i as int]));
                lemma_lt_transitive(s[p], name@, s[i as int]);
                if q - 1 > i {
                    assert(seq_lt(s[i as int], s[q - 1]));
                    lemma_lt_transitive(s[p], s[i as int], s[q - 1]);
                }
            } else if p > i {
                assert(t[p] == s[p - 1] && t[q] == s[q - 1]);
            }
        }
        assert forall|x: Seq<char>| #[trigger] t.contains(x) <==> s.to_set().insert(name@).contains(x) by {
            if t.contains(x) {
                let k = choose|k: int| 0 <= k < t.len() && t[k] == x;
                if k < i {
                    assert(s[k] == x);
                } else if k > i {
                    assert(s[k - 1] == x);
                }
            }
            if s.contains(x) {
                let k = choose|k: int| 0 <= k < s.len() && s[k] == x;
                if k < i {
                    assert(t[k] == x);
                } else {
                    assert(t[k + 1] == x);
                }
            }
            if x == name@ {
                assert(t[i as int] == x);
            }
        }
        assert(t.to_set() =~= s.to_set().insert(name@));
    }
}

/// The names of the directory entries that count as launchable programs,
/// each once, sorted in byte order. `entries` pairs each entry's name with
/// whether it is a directory.
pub fn build_index(entries: Vec<(String, bool)>) -> (r: Vec<String>)
    ensures
        is_index_of(entries@, names(r@)),
{
    let mut index: Vec<String> = Vec::new();
    let mut i: usize = 0;
    assert(names(index@).to_set() =~= Set::empty());
    while i < entries.len()
        invariant
            0 <= i <= entries@.len(),
            strictly_sorted(names(index@)),
            names(index@).to_set() == listed_names(entries@.subrange(0, i as int)),
        decreases entries@.len() - i,
    {
        let ghost before = names(index@).to_set();
        let name = entries[i].0.clone();
        let is_dir = entries[i].1;
        if is_listed_entry(name.as_str(), is_dir) {
            insert_name(&mut index, name);
        }
        proof {
            let a = entries@.subrange(0, i as int);
            let b = entries@.subrange(0, i + 1);
            assert forall|x: Seq<char>| #[trigger] listed_names(b).contains(x) <==> (listed_names(
                a,
            ).contains(x) || (is_listed(entries@[i as int].0@, entries@[i as int].1)
                && x == entries@[i as int].0@)) by {
                if listed_names(b).contains(x) {
                    let k = choose|k: int|
                        0 <= k < b.len() && is_listed(#[trigger] b[k].0@, b[k].1) && b[k].0@ == x;
                    if k < i {
                        assert(a[k] == b[k]);
                    }
                }
                if listed_names(a).contains(x) {
                    let k = choose|k: int|
                        0 <= k < a.len() && is_listed(#[trigger] a[k].0@, a[k].1) && a[k].0@ == x;
                    assert(a[k] == b[k]);
                }
                if is_listed(entries@[i as int].0@, entries@[i as int].1) && x == entries@[i as int].0@ {
                    assert(b[i as int] == entries@[i as int]);
                }
            }
            assert(names(index@).to_set() =~= listed_names(b));
        }
        i = i + 1;
    }
    assert(entries@.subrange(0, entries@.len() as int) =~= entries@);
    index
}


/// Two lists that are each sorted in byte order without duplicates and that
/// hold the same names are the same list.
pub proof fn lemma_sorted_unique(a: Seq<Seq<char>>, b: Seq<Seq<char>>)
    requires
        strictly_sorted(a),
        strictly_sorted(b),
        a.to_set() == b.to_set(),
    ensures
        a == b,
    decreases a.len(),
{
    if a.len() == 0 {
        if b.len() > 0 {
            assert(b.to_set().contains(b[0]));
        }
        assert(a =~= b);
    } else {
        assert(a.to_set().contains(a[0]));
        assert(b.len() > 0);
        assert(b.to_set().contains(b[0]));
        let j = choose|j: int| 0 <= j < b.len() && b[j] == a[0];
        let i = choose|i: int| 0 <= i < a.len() && a[i] == b[0];
        if j > 0 {
            assert(seq_lt(b[0], b[j]));
            if i > 0 {
                assert(seq_lt(a[0], a[i]));
                lemma_lt_transitive(a[0], a[i], a[0]);
            }
            lemma_lt_irreflexive(a[0]);
        }
        let a1 = a.drop_first();
        let b1 = b.drop_first();
        assert forall|x: Seq<char>| #[trigger] a1.to_set().contains(x) implies b1.to_set().contains(
            x,
        ) by {
            let k = choose|k: int| 0 <= k < a1.len() && a1[k] == x;
            assert(a.to_set().contains(a[k + 1]));
            let m = choose|m: int| 0 <= m < b.len() && b[m] == x;
            if m == 0 {
                assert(seq_lt(a[0], a[k + 1]));
                lemma_lt_irreflexive(a[0]);
            }
            assert(b1[m - 1] == x);
        }
        assert forall|x: Seq<char>| #[trigger] b1.to_set().contains(x) implies a1.to_set().contains(
            x,
        ) by {
            let k = choose|k: int| 0 <= k < b1.len() && b1[k] == x;
            assert(b.to_set().contains(b[k + 1]));
            let m = choose|m: int| 0 <= m < a.len() && a[m] == x;
            if m == 0 {
                assert(seq_lt(b[0], b[k + 1]));
                lemma_lt_irreflexive(b[0]);
            }
            assert(a1[m - 1] == x);
        }
        assert(a1.to_set() =~= b1.to_set());
        assert forall|p: int, q: int| 0 <= p < q < a1.len() implies seq_lt(
            #[trigger] a1[p],
            #[trigger] a1[q],
        ) by {
            assert(seq_lt(a[p + 1], a[q + 1]));
        }
        assert forall|p: int, q: int| 0 <= p < q < b1.len() implies seq_lt(
            #[trigger] b1[p],
            #[trigger] b1[q],
        ) by {
            assert(seq_lt(b[p + 1], b[q + 1]));
        }
        lemma_sorted_unique(a1, b1);
        assert forall|k: int| 0 <= k < a.len() implies a[k] == b[k] by {
            if k > 0 {
                assert(a[k] == a1[k - 1]);
            }
        }
        assert(a =~= b);
    }
}

/// Indexing is deterministic: two listings of directory entries that hold the
/// same launchable names, in whatever order and from whatever directories,
/// give the same index.
pub proof fn lemma_index_deterministic(
    e1: Seq<(String, bool)>,
    e2: Seq<(String, bool)>,
    r1: Seq<Seq<char>>,
    r2: Seq<Seq<char>>,
)
    requires
        is_index_of(e1, r1),
        is_index_of(e2, r2),
        listed_names(e1) == listed_names(e2),
    ensures
        r1 == r2,
{
    lemma_sorted_unique(r1, r2);
}

} // verus!
