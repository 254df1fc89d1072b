//! Package records, sizes, and the grouping of a package's files by install location.
use vstd::prelude::*;
use vstd::string::StringExecFns;
pub use crate::size::{format_bytes, parse_size_to_bytes};
use crate::text::{sub_vec, views, chars_of, lex_lt, trim, trim_range, string_of, compare_chars, lemma_lex_transitive, lemma_lex_irreflexive, lemma_lex_asymmetric};

verus! {

broadcast use {vstd::string::group_string_axioms, vstd::seq_lib::group_to_multiset_ensures};

/// Why a package is on the system.
#[derive(Debug, Clone, Copy, PartialEq, Eq, Structural)]
pub enum InstallReason {
    Explicit,
    Dependency,
    Unknown,
}

/// The text shown for install reason `r`.
pub open spec fn reason_text(r: InstallReason) -> Seq<char> {
    match r {
        InstallReason::Explicit => "Explicitly installed"@,
        InstallReason::Dependency => "Installed as dependency"@,
        InstallReason::Unknown => "Unknown"@,
    }
}

impl InstallReason {
    /// The text shown for the reason.
    pub fn to_string(&self) -> (s: String)
        ensures
            s@ == reason_text(*self),
    {
        match self {
            InstallReason::Explicit => String::from_str("Explicitly installed"),
            InstallReason::Dependency => String::from_str("Installed as dependency"),
            InstallReason::Unknown => String::from_str("Unknown"),
        }
    }
}

/// Where a package comes from.
#[derive(Debug, Clone, Copy, PartialEq, Eq, Structural)]
pub enum PackageSource {
    Official,
    AUR,
}

/// The text shown for package source `s`.
pub open spec fn source_text(s: PackageSource) -> Seq<char> {
    match s {
        PackageSource::Official => "Official"@,
        PackageSource::AUR => "AUR"@,
    }
}

impl PackageSource {
    /// The text shown for the source.
    pub fn to_string(&self) -> (s: String)
        ensures
            s@ == source_text(*self),
    {
        match self {
            PackageSource::Official => String::from_str("Official"),
            PackageSource::AUR => String::from_str("AUR"),
        }
    }
}

/// One installed package, as `pacman -Qi` describes it.
#[derive(Debug, Clone)]
pub struct Package {
    pub name: String,
    pub version: String,
    pub description: String,
    pub architecture: String,
    pub url: String,
    pub licenses: Vec<String>,
    pub groups: Vec<String>,
    pub provides: Vec<String>,
    pub depends: Vec<String>,
    pub optional_deps: Vec<String>,
    pub required_by: Vec<String>,
    pub optional_for: Vec<String>,
    pub conflicts: Vec<String>,
    pub replaces: Vec<String>,
    /// The size as pacman prints it, such as "5.86 MiB".
    pub installed_size: String,
    /// The size in bytes, for sorting.
    pub installed_size_bytes: u64,
    pub packager: String,
    pub build_date: String,
    pub install_date: String,
    pub install_reason: InstallReason,
    pub validated_by: String,
    pub source: PackageSource,
    pub is_orphan: bool,
}

/// The files of a package that lie under one install location.
#[derive(Debug, Clone)]
pub struct FileGroup {
    pub category: String,
    pub base_path: String,
    pub files: Vec<String>,
}

// ---------------------------------------------------------------------------
// install locations
// ---------------------------------------------------------------------------

/// The rank of the install location of `p` (0 for binaries, 10 for anything
/// else); manual pages count as documentation, so rank 3 is not used.
pub open spec fn category_order(p: Seq<char>) -> u8 {
    if "/usr/bin/"@.is_prefix_of(p) || "/usr/sbin/"@.is_prefix_of(p) || "/bin/"@.is_prefix_of(p)
        || "/sbin/"@.is_prefix_of(p) {
        0
    } else if "/usr/lib/"@.is_prefix_of(p) || "/lib/"@.is_prefix_of(p) {
        1
    } else if "/usr/include/"@.is_prefix_of(p) {
        2
    } else if "/usr/share/man/"@.is_prefix_of(p) || "/usr/share/doc/"@.is_prefix_of(p) {
        4
    } else if "/usr/share/licenses/"@.is_prefix_of(p) {
        5
    } else if "/usr/share/"@.is_prefix_of(p) {
        6
    } else if "/etc/"@.is_prefix_of(p) {
        7
    } else if "/var/"@.is_prefix_of(p) {
        8
    } else if "/opt/"@.is_prefix_of(p) {
        9
    } else {
        10
    }
}

/// The name of the install location of rank `o`.
pub open spec fn category_name(o: u8) -> Seq<char> {
    if o == 0 {
        "Binaries"@
    } else if o == 1 {
        "Libraries"@
    } else if o == 2 {
        "Headers"@
    } else if o == 3 || o == 4 {
        "Documentation"@
    } else if o == 5 {
        "Licenses"@
    } else if o == 6 {
        "Data and Resources"@
    } else if o == 7 {
        "Configuration"@
    } else if o == 8 {
        "Variable Data"@
    } else if o == 9 {
        "Optional"@
    } else {
        "Other"@
    }
}

/// The directory shown for the install location of rank `o`.
pub open spec fn category_base(o: u8) -> Seq<char> {
    if o == 0 {
        "/usr/bin/"@
    } else if o == 1 {
        "/usr/lib/"@
    } else if o == 2 {
        "/usr/include/"@
    } else if o == 3 || o == 4 {
        "/usr/share/doc/"@
    } else if o == 5 {
        "/usr/share/licenses/"@
    } else if o == 6 {
        "/usr/share/"@
    } else if o == 7 {
        "/etc/"@
    } else if o == 8 {
        "/var/"@
    } else if o == 9 {
        "/opt/"@
    } else {
        "/"@
    }
}

/// Whether the characters `v` start with `prefix`.
fn starts_with(v: &Vec<char>, prefix: &str) -> (b: bool)
    ensures
        b == prefix@.is_prefix_of(v@),
{
    let p = chars_of(prefix);
    if p.len() > v.len() {
        return false;
    }
    let mut k: usize = 0;
    while k < p.len()
        invariant
            p@ == prefix@,
            p@.len() <= v@.len(),
            k <= p@.len(),
            forall|j: int| 0 <= j < k ==> v@[j] == p@[j],
        decreases p@.len() - k,
    {
        if v[k] != p[k] {
            assert(v@.subrange(0, p@.len() as int)[k as int] != p@[k as int]);
            return false;
        }
        k = k + 1;
    }
    assert(p@ =~= v@.subrange(0, p@.len() as int));
    true
}

/// The rank of the install location of the path `v`.
fn order_of(v: &Vec<char>) -> (o: u8)
    ensures
        o == category_order(v@),
{
    if starts_with(v, "/usr/bin/") || starts_with(v, "/usr/sbin/") || starts_with(v, "/bin/")
        || starts_with(v, "/sbin/") {
        0
    } else if starts_with(v, "/usr/lib/") || starts_with(v, "/lib/") {
        1
    } else if starts_with(v, "/usr/include/") {
        2
    } else if starts_with(v, "/usr/share/man/") || starts_with(v, "/usr/share/doc/") {
        4
    } else if starts_with(v, "/usr/share/licenses/") {
        5
    } else if starts_with(v, "/usr/share/") {
        6
    } else if starts_with(v, "/etc/") {
        7
    } else if starts_with(v, "/var/") {
        8
    } else if starts_with(v, "/opt/") {
        9
    } else {
        10
    }
}

/// The name and the directory of the install location of rank `o`.
fn category_strings(o: u8) -> (r: (String, String))
    ensures
        r.0@ == category_name(o),
        r.1@ == category_base(o),
{
    if o == 0 {
        (String::from_str("Binaries"), String::from_str("/usr/bin/"))
    } else if o == 1 {
        (String::from_str("Libraries"), String::from_str("/usr/lib/"))
    } else if o == 2 {
        (String::from_str("Headers"), String::from_str("/usr/include/"))
    } else if o == 3 || o == 4 {
        (String::from_str("Documentation"), String::from_str("/usr/share/doc/"))
    } else if o == 5 {
        (String::from_str("Licenses"), String::from_str("/usr/share/licenses/"))
    } else if o == 6 {
        (String::from_str("Data and Resources"), String::from_str("/usr/share/"))
    } else if o == 7 {
        (String::from_str("Configuration"), String::from_str("/etc/"))
    } else if o == 8 {
        (String::from_str("Variable Data"), String::from_str("/var/"))
    } else if o == 9 {
        (String::from_str("Optional"), String::from_str("/opt/"))
    } else {
        (String::from_str("Other"), String::from_str("/"))
    }
}

/// The install location of `path`: its rank, its name and its directory.
pub fn categorize_path(path: &str) -> (r: (u8, String, String))
    ensures
        r.0 == category_order(path@),
        r.1@ == category_name(r.0),
        r.2@ == category_base(r.0),
{
    let v = chars_of(path);
    let o = order_of(&v);
    let (name, base) = category_strings(o);
    (o, name, base)
}

} // verus!

verus! {

// ---------------------------------------------------------------------------
// grouping files
// ---------------------------------------------------------------------------

/// The characters of each of a sequence of character vectors.
pub open spec fn cviews(v: Seq<Vec<char>>) -> Seq<Seq<char>> {
    v.map_values(|x: Vec<char>| x@)
}

/// `s` is in ascending order of `str`.
pub open spec fn sorted(s: Seq<Seq<char>>) -> bool {
    forall|i: int, j: int| 0 <= i < j < s.len() ==> !lex_lt(#[trigger] s[j], #[trigger] s[i])
}

/// The elements of `v`, in ascending order of `str`.
fn sort_chars(v: Vec<Vec<char>>) -> (r: Vec<Vec<char>>)
    ensures
        sorted(cviews(r@)),
        cviews(r@).to_multiset() == cviews(v@).to_multiset(),
{
    let ghost orig = cviews(v@);
    let mut v = v;
    let mut out: Vec<Vec<char>> = Vec::new();
    assert(cviews(out@) =~= Seq::<Seq<char>>::empty());
    while v.len() > 0
        invariant
            sorted(cviews(out@)),
            orig.to_multiset() == cviews(v@).to_multiset().add(cviews(out@).to_multiset()),
        decreases v@.len(),
    {
        let ghost before = v@;
        let x = v.pop().unwrap();
        proof {
            assert(cviews(before) =~= cviews(v@).push(x@));
        }
        let mut j: usize = 0;
        while j < out.len() && compare_chars(&x, &out[j]) >= 0
            invariant
                j <= out@.len(),
                forall|k: int| 0 <= k < j ==> !lex_lt(x@, #[trigger] cviews(out@)[k]),
            decreases out@.len() - j,
        {
            assert(cviews(out@)[j as int] == out@[j as int]@);
            j = j + 1;
        }
        let ghost prev = cviews(out@);
        proof {
            assert forall|k: int| j <= k < prev.len() implies !lex_lt(#[trigger] prev[k], x@) by {
                assert(lex_lt(x@, prev[j as int]));
                if k > j {
                    assert(!lex_lt(prev[k], prev[j as int]));
                }
                if lex_lt(prev[k], x@) {
                    lemma_lex_transitive(prev[k], x@, prev[j as int]);
                    lemma_lex_irreflexive(prev[j as int]);
                    if k == j {
                        lemma_lex_asymmetric(prev[k], x@);
                    }
                }
            }
        }
        out.insert(j, x);
        proof {
            let now = cviews(out@);
            assert(now =~= prev.insert(j as int, x@));
            vstd::seq_lib::to_multiset_insert(prev, j as int, x@);
            assert forall|a: int, b: int| 0 <= a < b < now.len() implies !lex_lt(
                #[trigger] now[b],
                #[trigger] now[a],
            ) by {
                if a < j && b < j {
                    assert(now[a] == prev[a] && now[b] == prev[b]);
                } else if a < j && b == j {
                    assert(now[a] == prev[a]);
                } else if a < j {
                    assert(now[a] == prev[a] && now[b] == prev[b - 1]);
                } else if a == j {
                    assert(now[b] == prev[b - 1]);
                } else {
                    assert(now[a] == prev[a - 1] && now[b] == prev[b - 1]);
                }
            }
        }
    }
    proof {
        assert(cviews(v@) =~= Seq::<Seq<char>>::empty());
        assert(cviews(v@).to_multiset() =~= vstd::multiset::Multiset::empty());
    }
    out
}

} // verus!

verus! {

/// A trimmed path is kept when it is not empty and does not name a directory.
pub open spec fn is_kept() -> spec_fn(Seq<char>) -> bool {
    |f: Seq<char>| f.len() > 0 && f.last() != '/'
}

/// A kept path belongs to the location of rank `o`.
pub open spec fn in_location(o: u8) -> spec_fn(Seq<char>) -> bool {
    |f: Seq<char>| category_order(f) == o
}

/// The paths that `group_files` keeps, trimmed and in input order.
pub open spec fn kept_paths(files: Seq<Seq<char>>) -> Seq<Seq<char>> {
    files.map_values(|f: Seq<char>| trim(f)).filter(is_kept())
}

/// The kept paths that lie under the location of rank `o`.
pub open spec fn location_files(files: Seq<Seq<char>>, o: u8) -> Seq<Seq<char>> {
    kept_paths(files).filter(in_location(o))
}

/// The ranks, from `o` up to 10, of the locations that hold at least one kept path.
pub open spec fn used_locations(files: Seq<Seq<char>>, o: nat) -> Seq<u8>
    decreases 11 - o,
{
    if o >= 11 {
        Seq::empty()
    } else {
        (if location_files(files, o as u8).len() > 0 {
            seq![o as u8]
        } else {
            Seq::empty()
        }) + used_locations(files, o + 1)
    }
}

/// `r` groups the paths `files`: one group per location that holds a kept
/// path, in ascending rank, each with the location's name and directory and
/// with exactly the location's paths, in ascending order.
pub open spec fn groups_of(files: Seq<Seq<char>>, r: Seq<FileGroup>) -> bool {
    &&& r.len() == used_locations(files, 0).len()
    &&& forall|k: int|
        0 <= k < r.len() ==> {
            let o = used_locations(files, 0)[k];
            &&& (#[trigger] r[k]).category@ == category_name(o)
            &&& r[k].base_path@ == category_base(o)
            &&& sorted(views(r[k].files@))
            &&& views(r[k].files@).to_multiset() == location_files(files, o).to_multiset()
        }
}

/// Owned strings with the characters of each element of `v`.
fn to_strings(v: &Vec<Vec<char>>) -> (r: Vec<String>)
    ensures
        views(r@) == cviews(v@),
{
    let mut r: Vec<String> = Vec::new();
    let mut i: usize = 0;
    while i < v.len()
        invariant
            i <= v@.len(),
            views(r@) == cviews(v@).take(i as int),
        decreases v@.len() - i,
    {
        let s = string_of(v[i].as_slice());
        assert(v[i as int]@.subrange(0, v[i as int]@.len() as int) =~= v[i as int]@);
        let ghost prev = r@;
        r.push(s);
        assert(views(r@) =~= views(prev).push(s@));
        assert(cviews(v@)[i as int] == s@);
        assert(views(r@) =~= cviews(v@).take(i + 1));
        i = i + 1;
    }
    assert(cviews(v@).take(v@.len() as int) =~= cviews(v@));
    r
}

/// Groups file paths by install location: each path is trimmed; empty
/// paths and directories (ending in `/`) are dropped; the groups come in
/// ascending rank, only for locations that hold a path, each with its
/// paths in ascending order.
pub fn group_files(files: Vec<String>) -> (r: Vec<FileGroup>)
    ensures
        groups_of(views(files@), r@),
{
    let ghost fv = views(files@);
    let mut kept: Vec<Vec<char>> = Vec::new();
    let mut ranks: Vec<u8> = Vec::new();
    let mut i: usize = 0;
    while i < files.len()
        invariant
            i <= files@.len(),
            fv == views(files@),
            cviews(kept@) == kept_paths(fv.take(i as int)),
            ranks@.len() == kept@.len(),
            forall|k: int| 0 <= k < kept@.len() ==> ranks@[k] == category_order(#[trigger] kept@[k]@),
        decreases files@.len() - i,
    {
        let v = chars_of(files[i].as_str());
        let (a, b) = trim_range(&v, 0, v.len());
        proof {
            assert(v@.subrange(0, v@.len() as int) =~= v@);
            let f = |f: Seq<char>| trim(f);
            assert(fv.take(i + 1).map_values(f) =~= fv.take(i as int).map_values(f).push(trim(fv[i as int])));
            fv.take(i as int).map_values(f).lemma_filter_push(trim(fv[i as int]), is_kept());
        }
        let ghost prev = kept@;
        if b > a && v[b - 1] != '/' {
            let t = sub_vec(&v, a, b);
            let o = order_of(&t);
            kept.push(t);
            ranks.push(o);
            proof {
                assert(cviews(kept@) =~= cviews(prev).push(t@));
                assert forall|k: int| 0 <= k < kept@.len() implies ranks@[k] == category_order(
                    #[trigger] kept@[k]@,
                ) by {
                    if k < prev.len() {
                        assert(kept@[k] == prev[k]);
                    }
                }
            }
        } else {
            proof {
                if b > a {
                    assert(v@.subrange(a as int, b as int).last() == v@[b - 1]);
                }
            }
        }
        i = i + 1;
    }
    assert(fv.take(files@.len() as int) =~= fv);
    let mut r: Vec<FileGroup> = Vec::new();
    let ghost mut done: Seq<u8> = Seq::empty();
    let mut o: u8 = 0;
    while o < 11
        invariant
            o <= 11,
            fv == views(files@),
            cviews(kept@) == kept_paths(fv),
            ranks@.len() == kept@.len(),
            forall|k: int| 0 <= k < kept@.len() ==> ranks@[k] == category_order(#[trigger] kept@[k]@),
            used_locations(fv, 0) == done + used_locations(fv, o as nat),
            r@.len() == done.len(),
            forall|k: int|
                0 <= k < r@.len() ==> {
                    let o = done[k];
                    &&& (#[trigger] r@[k]).category@ == category_name(o)
                    &&& r@[k].base_path@ == category_base(o)
                    &&& sorted(views(r@[k].files@))
                    &&& views(r@[k].files@).to_multiset() == location_files(fv, o).to_multiset()
                },
        decreases 11 - o,
    {
        let mut bucket: Vec<Vec<char>> = Vec::new();
        let mut j: usize = 0;
        while j < kept.len()
            invariant
                j <= kept@.len(),
                ranks@.len() == kept@.len(),
                forall|k: int| 0 <= k < kept@.len() ==> ranks@[k] == category_order(#[trigger] kept@[k]@),
                cviews(bucket@) == cviews(kept@).take(j as int).filter(in_location(o)),
            decreases kept@.len() - j,
        {
            let ghost pb = bucket@;
            proof {
                assert(cviews(kept@).take(j + 1) =~= cviews(kept@).take(j as int).push(kept@[j as int]@));
                cviews(kept@).take(j as int).lemma_filter_push(kept@[j as int]@, in_location(o));
            }
            if ranks[j] == o {
                let t = sub_vec(&kept[j], 0, kept[j].len());
                assert(kept@[j as int]@.subrange(0, kept@[j as int]@.len() as int) =~= kept@[j as int]@);
                bucket.push(t);
                assert(cviews(bucket@) =~= cviews(pb).push(t@));
            }
            j = j + 1;
        }
        assert(cviews(kept@).take(kept@.len() as int) =~= cviews(kept@));
        let ghost prev_r = r@;
        proof {
            assert(used_locations(fv, o as nat) == (if location_files(fv, o).len() > 0 {
                seq![o]
            } else {
                Seq::empty()
            }) + used_locations(fv, o as nat + 1));
        }
        if bucket.len() > 0 {
            let sorted_files = sort_chars(bucket);
            let names = to_strings(&sorted_files);
            let (category, base_path) = category_strings(o);
            r.push(FileGroup { category, base_path, files: names });
            proof {
                assert(used_locations(fv, 0) =~= done.push(o) + used_locations(fv, o as nat + 1));
                done = done.push(o);
                assert forall|k: int| 0 <= k < r@.len() implies {
                    let o = done[k];
                    &&& (#[trigger] r@[k]).category@ == category_name(o)
                    &&& r@[k].base_path@ == category_base(o)
                    &&& sorted(views(r@[k].files@))
                    &&& views(r@[k].files@).to_multiset() == location_files(fv, o).to_multiset()
                } by {
                    if k < prev_r.len() {
                        assert(r@[k] == prev_r[k]);
                    }
                }
            }
        } else {
            proof {
                assert(used_locations(fv, 0) =~= done + used_locations(fv, o as nat + 1));
            }
        }
        o = o + 1;
    }
    r
}

} // verus!
