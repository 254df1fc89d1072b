//! Which packages a filter and a search show, and in what order.
use vstd::prelude::*;
use crate::app::FilterCategory;
use crate::dates::{install_key, install_key_of, key_view};
use crate::package::{InstallReason, Package, PackageSource};
use crate::text::{chars_of, contains, find_in, lowercase, to_lowercase};

verus! {

/// Package `p` belongs to the category of filter `f`.
pub open spec fn category_match(p: Package, f: FilterCategory) -> bool {
    match f {
        FilterCategory::All => true,
        FilterCategory::Explicit => p.install_reason == InstallReason::Explicit,
        FilterCategory::Dependencies => p.install_reason == InstallReason::Dependency,
        FilterCategory::AUR => p.source == PackageSource::AUR,
        FilterCategory::Orphans => p.is_orphan,
        FilterCategory::Recent => true,
        FilterCategory::Largest => true,
    }
}

/// Package `p` matches the search `query`: the lowercased query is empty, or
/// occurs in the lowercased name or description.
pub open spec fn search_match(p: Package, query: Seq<char>) -> bool {
    let q = lowercase(query);
    q.len() == 0 || contains(lowercase(p.name@), q) || contains(lowercase(p.description@), q)
}

/// Package `p` is listed under filter `f` and search `query`.
pub open spec fn listed(p: Package, f: FilterCategory, query: Seq<char>) -> bool {
    category_match(p, f) && search_match(p, query)
}

/// Under filter `f`, package `i` comes before package `j`: the largest first
/// for Largest; for Recent the latest install first, packages whose install
/// date cannot be read after all others; else by position. Ties keep
/// position order.
pub open spec fn precedes(pkgs: Seq<Package>, f: FilterCategory, i: int, j: int) -> bool {
    match f {
        FilterCategory::Largest => pkgs[i].installed_size_bytes > pkgs[j].installed_size_bytes || (
        pkgs[i].installed_size_bytes == pkgs[j].installed_size_bytes && i < j),
        FilterCategory::Recent => match (
            install_key(pkgs[i].install_date@),
            install_key(pkgs[j].install_date@),
        ) {
            (Some(a), Some(b)) => a > b || (a == b && i < j),
            (Some(_), None) => true,
            (None, Some(_)) => false,
            (None, None) => i < j,
        },
        _ => i < j,
    }
}

/// `r` is what the list shows under filter `f` and search `query`: the
/// indices of exactly the listed packages, in the order of the filter.
pub open spec fn is_listing(pkgs: Seq<Package>, f: FilterCategory, query: Seq<char>, r: Seq<usize>) -> bool {
    &&& forall|k: int| 0 <= k < r.len() ==> (#[trigger] r[k]) < pkgs.len() && listed(pkgs[r[k] as int], f, query)
    &&& forall|i: int| 0 <= i < pkgs.len() && listed(#[trigger] pkgs[i], f, query) ==> r.contains(i as usize)
    &&& forall|a: int, b: int| 0 <= a < b < r.len() ==> precedes(pkgs, f, #[trigger] r[a] as int, #[trigger] r[b] as int)
}

/// `precedes` is a strict total order on distinct positions.
pub proof fn lemma_precedes_order(pkgs: Seq<Package>, f: FilterCategory, i: int, j: int, k: int)
    ensures
        !precedes(pkgs, f, i, i),
        precedes(pkgs, f, i, j) ==> !precedes(pkgs, f, j, i),
        i != j ==> precedes(pkgs, f, i, j) || precedes(pkgs, f, j, i),
        precedes(pkgs, f, i, j) && precedes(pkgs, f, j, k) ==> precedes(pkgs, f, i, k),
{
}

/// Whether package `p` is listed, given the lowercased query `q`.
fn listed_exec(p: &Package, f: FilterCategory, q: &Vec<char>) -> (b: bool)
    ensures
        b == (category_match(*p, f) && (q@.len() == 0 || contains(lowercase(p.name@), q@)
            || contains(lowercase(p.description@), q@))),
{
    let category = match f {
        FilterCategory::All => true,
        FilterCategory::Explicit => p.install_reason == InstallReason::Explicit,
        FilterCategory::Dependencies => p.install_reason == InstallReason::Dependency,
        FilterCategory::AUR => p.source == PackageSource::AUR,
        FilterCategory::Orphans => p.is_orphan,
        FilterCategory::Recent => true,
        FilterCategory::Largest => true,
    };
    if !category {
        return false;
    }
    if q.len() == 0 {
        return true;
    }
    let name = to_lowercase(p.name.as_str());
    let nv = chars_of(name.as_str());
    assert(nv@.subrange(0, nv@.len() as int) =~= nv@);
    if find_in(&nv, 0, nv.len(), q).is_some() {
        return true;
    }
    let desc = to_lowercase(p.description.as_str());
    let dv = chars_of(desc.as_str());
    assert(dv@.subrange(0, dv@.len() as int) =~= dv@);
    find_in(&dv, 0, dv.len(), q).is_some()
}

/// Whether `i` comes before `j` under filter `f`; `dates` holds the install
/// moments when `f` is Recent.
fn precedes_exec(pkgs: &Vec<Package>, dates: &Vec<Option<u64>>, f: FilterCategory, i: usize, j: usize) -> (b: bool)
    requires
        i < pkgs@.len(),
        j < pkgs@.len(),
        f == FilterCategory::Recent ==> dates@.len() == pkgs@.len() && forall|k: int|
            0 <= k < pkgs@.len() ==> key_view(#[trigger] dates@[k]) == install_key(pkgs@[k].install_date@),
    ensures
        b == precedes(pkgs@, f, i as int, j as int),
{
    match f {
        FilterCategory::Largest => {
            let a = pkgs[i].installed_size_bytes;
            let b = pkgs[j].installed_size_bytes;
            a > b || (a == b && i < j)
        },
        FilterCategory::Recent => match (dates[i], dates[j]) {
            (Some(a), Some(b)) => a > b || (a == b && i < j),
            (Some(_), None) => true,
            (None, Some(_)) => false,
            (None, None) => i < j,
        },
        _ => i < j,
    }
}

/// The elements of `idx` (distinct positions of `pkgs`) in the order of filter `f`.
pub(crate) fn order_by_filter(pkgs: &Vec<Package>, f: FilterCategory, idx: Vec<usize>) -> (r: Vec<usize>)
    requires
        forall|k: int| 0 <= k < idx@.len() ==> (#[trigger] idx@[k]) < pkgs@.len(),
        forall|a: int, b: int| 0 <= a < b < idx@.len() ==> #[trigger] idx@[a] != #[trigger] idx@[b],
    ensures
        r@.len() == idx@.len(),
        forall|x: usize| r@.contains(x) <==> idx@.contains(x),
        forall|k: int| 0 <= k < r@.len() ==> (#[trigger] r@[k]) < pkgs@.len(),
        forall|a: int, b: int| 0 <= a < b < r@.len() ==> precedes(pkgs@, f, #[trigger] r@[a] as int, #[trigger] r@[b] as int),
{
    let mut dates: Vec<Option<u64>> = Vec::new();
    if f == FilterCategory::Recent {
        let mut k: usize = 0;
        while k < pkgs.len()
            invariant
                k <= pkgs@.len(),
                dates@.len() == k,
                forall|t: int| 0 <= t < k ==> key_view(#[trigger] dates@[t]) == install_key(pkgs@[t].install_date@),
            decreases pkgs@.len() - k,
        {
            dates.push(install_key_of(pkgs[k].install_date.as_str()));
            k = k + 1;
        }
    }
    let mut out: Vec<usize> = Vec::new();
    let mut k: usize = 0;
    while k < idx.len()
        invariant
            k <= idx@.len(),
            forall|t: int| 0 <= t < idx@.len() ==> (#[trigger] idx@[t]) < pkgs@.len(),
            forall|a: int, b: int| 0 <= a < b < idx@.len() ==> #[trigger] idx@[a] != #[trigger] idx@[b],
            f == FilterCategory::Recent ==> dates@.len() == pkgs@.len() && forall|t: int|
                0 <= t < pkgs@.len() ==> key_view(#[trigger] dates@[t]) == install_key(pkgs@[t].install_date@),
            out@.len() == k,
            forall|x: usize| out@.contains(x) <==> idx@.take(k as int).contains(x),
            forall|t: int| 0 <= t < out@.len() ==> (#[trigger] out@[t]) < pkgs@.len(),
            forall|a: int, b: int| 0 <= a < b < out@.len() ==> precedes(pkgs@, f, #[trigger] out@[a] as int, #[trigger] out@[b] as int),
        decreases idx@.len() - k,
    {
        let x = idx[k];
        proof {
            assert forall|t: int| 0 <= t < out@.len() implies out@[t] != x by {
                assert(out@.contains(out@[t]));
                assert(idx@.take(k as int).contains(out@[t]));
                let w = choose|w: int| 0 <= w < k && idx@.take(k as int)[w] == out@[t];
                assert(idx@[w] == out@[t]);
            }
        }
        let mut j: usize = 0;
        while j < out.len() && !precedes_exec(pkgs, &dates, f, x, out[j])
            invariant
                j <= out@.len(),
                x < pkgs@.len(),
                forall|t: int| 0 <= t < out@.len() ==> (#[trigger] out@[t]) < pkgs@.len(),
                forall|t: int| 0 <= t < out@.len() ==> (#[trigger] out@[t]) != x,
                f == FilterCategory::Recent ==> dates@.len() == pkgs@.len() && forall|t: int|
                    0 <= t < pkgs@.len() ==> key_view(#[trigger] dates@[t]) == install_key(pkgs@[t].install_date@),
                forall|t: int| 0 <= t < j ==> precedes(pkgs@, f, #[trigger] out@[t] as int, x as int),
            decreases out@.len() - j,
        {
            proof {
                lemma_precedes_order(pkgs@, f, x as int, out@[j as int] as int, 0);
            }
            j = j + 1;
        }
        let ghost prev = out@;
        proof {
            assert forall|t: int| j <= t < prev.len() implies precedes(pkgs@, f, x as int, #[trigger] prev[t] as int) by {
                lemma_precedes_order(pkgs@, f, x as int, prev[j as int] as int, prev[t] as int);
                if t > j {
                    assert(precedes(pkgs@, f, prev[j as int] as int, prev[t] as int));
                }
            }
        }
        out.insert(j, x);
        proof {
            let now = out@;
            assert(now =~= prev.insert(j as int, x));
            assert(idx@.take(k + 1) =~= idx@.take(k as int).push(x));
            assert forall|y: usize| now.contains(y) <==> idx@.take(k + 1).contains(y) by {
                if now.contains(y) {
                    let w = choose|w: int| 0 <= w < now.len() && now[w] == y;
                    if w < j {
                        assert(prev[w] == y);
                        assert(prev.contains(y));
                    } else if w > j {
                        assert(prev[w - 1] == y);
                        assert(prev.contains(y));
                    }
                    assert(idx@.take(k + 1).contains(y) ) by {
                        if y != x {
                            assert(idx@.take(k as int).contains(y));
                            let v = choose|v: int| 0 <= v < k && idx@.take(k as int)[v] == y;
                            assert(idx@.take(k + 1)[v] == y);
                        } else {
                            assert(idx@.take(k + 1)[k as int] == x);
                        }
                    }
                }
                if idx@.take(k + 1).contains(y) {
                    let v = choose|v: int| 0 <= v < k + 1 && #[trigger] idx@.take(k + 1)[v] == y;
                    if v < k {
                        assert(idx@.take(k as int)[v] == y);
                        assert(prev.contains(y));
                        let w = choose|w: int| 0 <= w < prev.len() && prev[w] == y;
                        if w < j {
                            assert(now[w] == y);
                        } else {
                            assert(now[w + 1] == y);
                        }
                    } else {
                        assert(now[j as int] == y);
                    }
                }
            }
            assert forall|a: int, b: int| 0 <= a < b < now.len() implies precedes(pkgs@, f, #[trigger] now[a] as int, #[trigger] now[b] as int) by {
                if a < j && b < j {
                    assert(now[a] == prev[a] && now[b] == prev[b]);
                } else if a < j && b == j {
                    assert(now[a] == prev[a]);
                } else if a < j {
                    assert(now[a] == prev[a] && now[b] == prev[b - 1]);
                    lemma_precedes_order(pkgs@, f, prev[a] as int, x as int, prev[b - 1] as int);
                } else if a == j {
                    assert(now[b] == prev[b - 1]);
                } else {
                    assert(now[a] == prev[a - 1] && now[b] == prev[b - 1]);
                }
            }
        }
        k = k + 1;
    }
    assert(idx@.take(idx@.len() as int) =~= idx@);
    out
}

} // verus!

verus! {

/// The indices of the packages listed under filter `f` and search `query`,
/// in the filter's order.
pub fn compute_listing(pkgs: &Vec<Package>, f: FilterCategory, query: &str) -> (r: Vec<usize>)
    ensures
        is_listing(pkgs@, f, query@, r@),
        r@.len() <= pkgs@.len(),
{
    let ql = to_lowercase(query);
    let q = chars_of(ql.as_str());
    let mut idx: Vec<usize> = Vec::new();
    let mut i: usize = 0;
    while i < pkgs.len()
        invariant
            i <= pkgs@.len(),
            q@ == lowercase(query@),
            idx@.len() <= i,
            forall|k: int| 0 <= k < idx@.len() ==> (#[trigger] idx@[k]) < i,
            forall|k: int| 0 <= k < idx@.len() ==> listed(pkgs@[#[trigger] idx@[k] as int], f, query@),
            forall|a: int, b: int| 0 <= a < b < idx@.len() ==> #[trigger] idx@[a] < #[trigger] idx@[b],
            forall|j: int| 0 <= j < i && listed(#[trigger] pkgs@[j], f, query@) ==> idx@.contains(j as usize),
        decreases pkgs@.len() - i,
    {
        let ghost prev = idx@;
        if listed_exec(&pkgs[i], f, &q) {
            idx.push(i);
            assert forall|j: int| 0 <= j < i + 1 && listed(#[trigger] pkgs@[j], f, query@) implies idx@.contains(j as usize) by {
                if j < i {
                    let w = choose|w: int| 0 <= w < prev.len() && prev[w] == j as usize;
                    assert(idx@[w] == j as usize);
                } else {
                    assert(idx@[prev.len() as int] == i);
                }
            }
        }
        i = i + 1;
    }
    let r = order_by_filter(pkgs, f, idx);
    assert forall|k: int| 0 <= k < r@.len() implies (#[trigger] r@[k]) < pkgs@.len() && listed(pkgs@[r@[k] as int], f, query@) by {
        assert(r@.contains(r@[k]));
        assert(idx@.contains(r@[k]));
    }
    assert forall|j: int| 0 <= j < pkgs@.len() && listed(#[trigger] pkgs@[j], f, query@) implies r@.contains(j as usize) by {
        assert(idx@.contains(j as usize));
    }
    r
}

} // verus!
