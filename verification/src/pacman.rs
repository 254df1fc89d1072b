//! Reading what pacman prints: `pacman -Qi` records, `-Qm`/`-Qdtq` name
//! lists and `-Ql` file lists. The commands themselves run outside the library.
use vstd::prelude::*;
use vstd::string::StringExecFns;
use crate::package::{InstallReason, Package, PackageSource};
use crate::size::{parse_size_to_bytes, size_bytes};
use crate::text::{
    chars_of, compare_chars, contains, find, find_in, lemma_find_from, split_on, split_ranges,
    string_from, sub_vec, trim, trim_range, views, words, words_in,
};

verus! {

broadcast use vstd::string::group_string_axioms;

/// The fields of one record: pairs of key and value, in order.
pub type Fields = Seq<(Seq<char>, Seq<char>)>;

/// The characters of each key and value.
pub open spec fn fields_view(f: Seq<(Vec<char>, Vec<char>)>) -> Fields {
    f.map_values(|p: (Vec<char>, Vec<char>)| (p.0@, p.1@))
}

/// The value of the first field named `key`; empty when there is none.
pub open spec fn lookup(f: Fields, key: Seq<char>) -> Seq<char>
    decreases f.len(),
{
    if f.len() == 0 {
        Seq::empty()
    } else if f[0].0 == key {
        f[0].1
    } else {
        lookup(f.drop_first(), key)
    }
}

/// A list field: its words, or nothing when it is empty or "None".
pub open spec fn list_value(v: Seq<char>) -> Seq<Seq<char>> {
    if v.len() == 0 || v == "None"@ {
        Seq::empty()
    } else {
        words(v)
    }
}

/// An entry of the optional dependencies is kept when it is not empty.
pub open spec fn is_entry() -> spec_fn(Seq<char>) -> bool {
    |s: Seq<char>| s.len() > 0
}

/// Each of `s`, trimmed.
pub open spec fn trim_each(s: Seq<Seq<char>>) -> Seq<Seq<char>> {
    s.map_values(|x: Seq<char>| trim(x))
}

/// The optional dependencies: the pieces between double spaces, trimmed,
/// without empty ones; nothing when the field is empty or "None".
pub open spec fn optional_deps_value(v: Seq<char>) -> Seq<Seq<char>> {
    if v.len() == 0 || v == "None"@ {
        Seq::empty()
    } else {
        trim_each(split_on(v, seq![' ', ' '])).filter(is_entry())
    }
}

/// The install reason that a field's text names.
pub open spec fn reason_value(v: Seq<char>) -> InstallReason {
    if contains(v, "Explicitly"@) {
        InstallReason::Explicit
    } else if contains(v, "dependency"@) || contains(v, "Dependency"@) {
        InstallReason::Dependency
    } else {
        InstallReason::Unknown
    }
}

/// `p` is the package that the record `f` describes.
pub open spec fn built_from(p: Package, f: Fields) -> bool {
    &&& p.name@ == lookup(f, "Name"@)
    &&& p.version@ == lookup(f, "Version"@)
    &&& p.description@ == lookup(f, "Description"@)
    &&& p.architecture@ == lookup(f, "Architecture"@)
    &&& p.url@ == lookup(f, "URL"@)
    &&& views(p.licenses@) == list_value(lookup(f, "Licenses"@))
    &&& views(p.groups@) == list_value(lookup(f, "Groups"@))
    &&& views(p.provides@) == list_value(lookup(f, "Provides"@))
    &&& views(p.depends@) == list_value(lookup(f, "Depends On"@))
    &&& views(p.optional_deps@) == optional_deps_value(lookup(f, "Optional Deps"@))
    &&& views(p.required_by@) == list_value(lookup(f, "Required By"@))
    &&& views(p.optional_for@) == list_value(lookup(f, "Optional For"@))
    &&& views(p.conflicts@) == list_value(lookup(f, "Conflicts With"@))
    &&& views(p.replaces@) == list_value(lookup(f, "Replaces"@))
    &&& p.installed_size@ == lookup(f, "Installed Size"@)
    &&& p.installed_size_bytes == size_bytes(lookup(f, "Installed Size"@))
    &&& p.packager@ == lookup(f, "Packager"@)
    &&& p.build_date@ == lookup(f, "Build Date"@)
    &&& p.install_date@ == lookup(f, "Install Date"@)
    &&& p.install_reason == reason_value(lookup(f, "Install Reason"@))
    &&& p.validated_by@ == lookup(f, "Validated By"@)
    &&& p.source == PackageSource::Official
    &&& !p.is_orphan
}

/// The value of the first field named `key`.
fn lookup_exec(fields: &Vec<(Vec<char>, Vec<char>)>, key: &str) -> (r: Vec<char>)
    ensures
        r@ == lookup(fields_view(fields@), key@),
{
    let k = chars_of(key);
    let ghost fv = fields_view(fields@);
    let mut i: usize = 0;
    assert(fv.skip(0) =~= fv);
    while i < fields.len()
        invariant
            i <= fields@.len(),
            k@ == key@,
            fv == fields_view(fields@),
            lookup(fv, key@) == lookup(fv.skip(i as int), key@),
        decreases fields@.len() - i,
    {
        assert(fv.skip(i as int)[0] == (fields@[i as int].0@, fields@[i as int].1@));
        if compare_chars(&fields[i].0, &k) == 0 {
            let v = sub_vec(&fields[i].1, 0, fields[i].1.len());
            assert(v@ =~= fields@[i as int].1@);
            return v;
        }
        assert(fv.skip(i as int).drop_first() =~= fv.skip(i + 1));
        i = i + 1;
    }
    assert(fv.skip(i as int).len() == 0);
    Vec::new()
}

/// Whether `v` is "None".
fn is_none_word(v: &Vec<char>) -> (b: bool)
    ensures
        b == (v@ == "None"@),
{
    let n = chars_of("None");
    compare_chars(v, &n) == 0
}

/// A list field as strings.
fn list_exec(v: &Vec<char>) -> (r: Vec<String>)
    ensures
        views(r@) == list_value(v@),
{
    if v.len() == 0 || is_none_word(v) {
        let r: Vec<String> = Vec::new();
        assert(views(r@) =~= Seq::<Seq<char>>::empty());
        r
    } else {
        assert(v@.subrange(0, v@.len() as int) =~= v@);
        words_in(v, 0, v.len())
    }
}

/// The optional dependencies as strings.
fn optional_deps_exec(v: &Vec<char>) -> (r: Vec<String>)
    ensures
        views(r@) == optional_deps_value(v@),
{
    let mut r: Vec<String> = Vec::new();
    if v.len() == 0 || is_none_word(v) {
        assert(views(r@) =~= Seq::<Seq<char>>::empty());
        return r;
    }
    let sep: Vec<char> = vec![' ', ' '];
    assert(v@.subrange(0, v@.len() as int) =~= v@);
    let pieces = split_ranges(v, 0, v.len(), &sep);
    let ghost parts = split_on(v@, sep@);
    let mut k: usize = 0;
    assert(trim_each(parts).take(0).filter(is_entry()) =~= Seq::<Seq<char>>::empty());
    assert(views(r@) =~= Seq::<Seq<char>>::empty());
    while k < pieces.len()
        invariant
            k <= pieces@.len(),
            sep@ == seq![' ', ' '],
            parts == split_on(v@, sep@),
            pieces@.len() == parts.len(),
            forall|j: int| 0 <= j < pieces@.len() ==> (#[trigger] pieces@[j]).0 <= pieces@[j].1 <= v@.len(),
            forall|j: int|
                0 <= j < pieces@.len() ==> #[trigger] parts[j] == v@.subrange(
                    pieces@[j].0 as int,
                    pieces@[j].1 as int,
                ),
            views(r@) == trim_each(parts).take(k as int).filter(is_entry()),
        decreases pieces@.len() - k,
    {
        let (lo, hi) = pieces[k];
        let (a, b) = trim_range(v, lo, hi);
        let ghost prev = r@;
        proof {
            assert(trim_each(parts)[k as int] == trim(parts[k as int]));
            assert(trim_each(parts).take(k + 1) =~= trim_each(parts).take(k as int).push(
                trim(parts[k as int]),
            ));
            trim_each(parts).take(k as int).lemma_filter_push(trim(parts[k as int]), is_entry());
        }
        if b > a {
            let s = crate::text::string_in(&v, a, b);
            r.push(s);
            assert(views(r@) =~= views(prev).push(s@));
        }
        k = k + 1;
    }
    assert(trim_each(parts).take(pieces@.len() as int) =~= trim_each(parts));
    r
}

/// Whether `v` contains `word`.
fn contains_exec(v: &Vec<char>, word: &str) -> (b: bool)
    ensures
        b == contains(v@, word@),
{
    let w = chars_of(word);
    assert(v@.subrange(0, v@.len() as int) =~= v@);
    find_in(v, 0, v.len(), &w).is_some()
}

/// The install reason named by `v`.
fn reason_exec(v: &Vec<char>) -> (r: InstallReason)
    ensures
        r == reason_value(v@),
{
    if contains_exec(v, "Explicitly") {
        InstallReason::Explicit
    } else if contains_exec(v, "dependency") || contains_exec(v, "Dependency") {
        InstallReason::Dependency
    } else {
        InstallReason::Unknown
    }
}

/// Builds the package of one record; `None` when the record has no name.
fn build_package(fields: &Vec<(Vec<char>, Vec<char>)>) -> (r: Option<Package>)
    ensures
        r is None <==> lookup(fields_view(fields@), "Name"@).len() == 0,
        r matches Some(p) ==> built_from(p, fields_view(fields@)),
{
    let name = lookup_exec(fields, "Name");
    if name.len() == 0 {
        return None;
    }
    let size = string_from(&lookup_exec(fields, "Installed Size"));
    let installed_size_bytes = parse_size_to_bytes(size.as_str());
    let reason = reason_exec(&lookup_exec(fields, "Install Reason"));
    Some(
        Package {
            name: string_from(&name),
            version: string_from(&lookup_exec(fields, "Version")),
            description: string_from(&lookup_exec(fields, "Description")),
            architecture: string_from(&lookup_exec(fields, "Architecture")),
            url: string_from(&lookup_exec(fields, "URL")),
            licenses: list_exec(&lookup_exec(fields, "Licenses")),
            groups: list_exec(&lookup_exec(fields, "Groups")),
            provides: list_exec(&lookup_exec(fields, "Provides")),
            depends: list_exec(&lookup_exec(fields, "Depends On")),
            optional_deps: optional_deps_exec(&lookup_exec(fields, "Optional Deps")),
            required_by: list_exec(&lookup_exec(fields, "Required By")),
            optional_for: list_exec(&lookup_exec(fields, "Optional For")),
            conflicts: list_exec(&lookup_exec(fields, "Conflicts With")),
            replaces: list_exec(&lookup_exec(fields, "Replaces")),
            installed_size: size,
            installed_size_bytes,
            packager: string_from(&lookup_exec(fields, "Packager")),
            build_date: string_from(&lookup_exec(fields, "Build Date")),
            install_date: string_from(&lookup_exec(fields, "Install Date")),
            install_reason: reason,
            validated_by: string_from(&lookup_exec(fields, "Validated By")),
            source: PackageSource::Official,
            is_orphan: false,
        },
    )
}

} // verus!

verus! {

/// What the reader of `pacman -Qi` output holds after some lines: the
/// finished records, the fields of the record being read, and the key and
/// value of the field being read.
pub struct QiState {
    pub records: Seq<Fields>,
    pub fields: Fields,
    pub key: Seq<char>,
    pub value: Seq<char>,
}

/// The separator between a key and its value.
pub open spec fn field_separator() -> Seq<char> {
    seq![' ', ':', ' ']
}

/// `f` with the field `key: value` added, unless the key is empty.
pub open spec fn add_field(f: Fields, key: Seq<char>, value: Seq<char>) -> Fields {
    if key.len() > 0 {
        f.push((key, value))
    } else {
        f
    }
}

/// `records` with the record `f` added, unless it names no package.
pub open spec fn close_record(records: Seq<Fields>, f: Fields) -> Seq<Fields> {
    if lookup(f, "Name"@).len() > 0 {
        records.push(f)
    } else {
        records
    }
}

/// One line of `pacman -Qi` output read: an empty line ends the record; a
/// line with " : " starts a field, its key and value trimmed; any other line
/// continues the value of the field being read, after a space.
pub open spec fn qi_step(s: QiState, line: Seq<char>) -> QiState {
    if line.len() == 0 {
        QiState {
            records: close_record(s.records, add_field(s.fields, s.key, s.value)),
            fields: Seq::empty(),
            key: Seq::empty(),
            value: Seq::empty(),
        }
    } else {
        match find(line, field_separator()) {
            Some(p) => QiState {
                records: s.records,
                fields: add_field(s.fields, s.key, s.value),
                key: trim(line.take(p)),
                value: trim(line.skip(p + 3)),
            },
            None => QiState {
                value: if s.key.len() > 0 {
                    s.value + seq![' '] + trim(line)
                } else {
                    s.value
                },
                ..s
            },
        }
    }
}

/// The reader's state after the lines `ls`.
pub open spec fn qi_fold(ls: Seq<Seq<char>>) -> QiState
    decreases ls.len(),
{
    if ls.len() == 0 {
        QiState {
            records: Seq::empty(),
            fields: Seq::empty(),
            key: Seq::empty(),
            value: Seq::empty(),
        }
    } else {
        qi_step(qi_fold(ls.drop_last()), ls.last())
    }
}

/// The records of `pacman -Qi` output that name a package, in order.
pub open spec fn qi_records(out: Seq<char>) -> Seq<Fields> {
    let s = qi_fold(crate::text::lines(out));
    close_record(s.records, add_field(s.fields, s.key, s.value))
}

/// Bytes that UTF-8 takes for `c`.
pub open spec fn utf8_len(c: char) -> nat {
    if (c as u32) < 0x80 {
        1
    } else if (c as u32) < 0x800 {
        2
    } else if (c as u32) < 0x10000 {
        3
    } else {
        4
    }
}

/// Bytes that UTF-8 takes for the characters `s`.
pub open spec fn utf8_bytes(s: Seq<char>) -> nat
    decreases s.len(),
{
    if s.len() == 0 {
        0
    } else {
        utf8_bytes(s.drop_last()) + utf8_len(s.last())
    }
}

/// A prefix takes no more bytes than the whole.
proof fn lemma_utf8_prefix(s: Seq<char>, k: int)
    requires
        0 <= k <= s.len(),
    ensures
        utf8_bytes(s.take(k)) <= utf8_bytes(s),
    decreases s.len() - k,
{
    if k < s.len() {
        lemma_utf8_prefix(s, k + 1);
        assert(s.take(k + 1).drop_last() =~= s.take(k));
    } else {
        assert(s.take(k) =~= s);
    }
}

/// Byte offset of the first " : " in `line`: where a key of `pacman -Qi`
/// output ends and its value begins.
pub fn find_field_separator(line: &str) -> (r: Option<usize>)
    requires
        utf8_bytes(line@) <= usize::MAX,
    ensures
        r matches Some(b) ==> find(line@, field_separator()) matches Some(p) && b == utf8_bytes(
            line@.take(p),
        ),
        r is None ==> find(line@, field_separator()) is None,
{
    let v = chars_of(line);
    assert(v@.subrange(0, v@.len() as int) =~= v@);
    match separator_in(&v, 0, v.len()) {
        None => None,
        Some(p) => {
            proof {
                crate::text::lemma_find_from(line@, field_separator(), 0);
            }
            let mut b: usize = 0;
            let mut k: usize = 0;
            assert(v@.take(0) =~= Seq::<char>::empty());
            while k < p
                invariant
                    k <= p <= v@.len(),
                    b == utf8_bytes(v@.take(k as int)),
                    v@ == line@,
                    utf8_bytes(line@) <= usize::MAX,
                decreases p - k,
            {
                let u = v[k] as u32;
                let w: usize = if u < 0x80 {
                    1
                } else if u < 0x800 {
                    2
                } else if u < 0x10000 {
                    3
                } else {
                    4
                };
                assert(v@.take(k + 1).drop_last() =~= v@.take(k as int));
                assert(v@.take(k + 1).last() == v@[k as int]);
                proof {
                    lemma_utf8_prefix(line@, k + 1);
                }
                b = b + w;
                k = k + 1;
            }
            Some(b)
        },
    }
}

/// Position of " : " in `v[lo..hi]`, relative to `lo`.
fn separator_in(v: &Vec<char>, lo: usize, hi: usize) -> (r: Option<usize>)
    requires
        lo <= hi <= v@.len(),
    ensures
        r matches Some(p) ==> find(v@.subrange(lo as int, hi as int), field_separator()) == Some(
            p as int,
        ),
        r is None ==> find(v@.subrange(lo as int, hi as int), field_separator()) is None,
{
    let sep: Vec<char> = vec![' ', ':', ' '];
    find_in(v, lo, hi, &sep)
}

/// Adds the field being read to `fields`.
fn push_field(fields: &mut Vec<(Vec<char>, Vec<char>)>, key: Vec<char>, value: Vec<char>)
    ensures
        fields_view(final(fields)@) == add_field(fields_view(old(fields)@), key@, value@),
{
    if key.len() > 0 {
        let ghost prev = fields@;
        let ghost kv = key@;
        let ghost vv = value@;
        fields.push((key, value));
        assert(fields_view(fields@) =~= fields_view(prev).push((kv, vv)));
    }
}

/// Ends a record: its package, if it names one, joins `packages`.
fn finish_record(
    packages: &mut Vec<Package>,
    fields: &Vec<(Vec<char>, Vec<char>)>,
    Ghost(records): Ghost<Seq<Fields>>,
) -> (new_records: Ghost<Seq<Fields>>)
    requires
        old(packages)@.len() == records.len(),
        forall|k: int| 0 <= k < old(packages)@.len() ==> built_from(#[trigger] old(packages)@[k], records[k]),
    ensures
        new_records@ == close_record(records, fields_view(fields@)),
        final(packages)@.len() == new_records@.len(),
        forall|k: int|
            0 <= k < final(packages)@.len() ==> built_from(#[trigger] final(packages)@[k], new_records@[k]),
{
    if fields.len() > 0 {
        match build_package(fields) {
            Some(pkg) => {
                let ghost prev = packages@;
                packages.push(pkg);
                let ghost now = records.push(fields_view(fields@));
                assert forall|k: int| 0 <= k < packages@.len() implies built_from(
                    #[trigger] packages@[k],
                    now[k],
                ) by {
                    if k < prev.len() {
                        assert(packages@[k] == prev[k]);
                    }
                }
                return Ghost(now);
            },
            None => {},
        }
    } else {
        assert(fields_view(fields@) =~= Seq::<(Seq<char>, Seq<char>)>::empty());
    }
    Ghost(records)
}

/// The characters of `trim(v[lo..hi])`.
fn trimmed(v: &Vec<char>, lo: usize, hi: usize) -> (r: Vec<char>)
    requires
        lo <= hi <= v@.len(),
    ensures
        r@ == trim(v@.subrange(lo as int, hi as int)),
{
    let (a, b) = trim_range(v, lo, hi);
    sub_vec(v, a, b)
}

/// Reads the line `v[lo..hi]` into the reader's state.
fn read_line(
    v: &Vec<char>,
    lo: usize,
    hi: usize,
    packages: &mut Vec<Package>,
    fields: &mut Vec<(Vec<char>, Vec<char>)>,
    key: &mut Vec<char>,
    value: &mut Vec<char>,
    Ghost(records): Ghost<Seq<Fields>>,
) -> (new_records: Ghost<Seq<Fields>>)
    requires
        lo <= hi <= v@.len(),
        old(packages)@.len() == records.len(),
        forall|k: int| 0 <= k < old(packages)@.len() ==> built_from(#[trigger] old(packages)@[k], records[k]),
    ensures
        qi_step(
            QiState {
                records,
                fields: fields_view(old(fields)@),
                key: old(key)@,
                value: old(value)@,
            },
            v@.subrange(lo as int, hi as int),
        ) == (QiState {
            records: new_records@,
            fields: fields_view(final(fields)@),
            key: final(key)@,
            value: final(value)@,
        }),
        final(packages)@.len() == new_records@.len(),
        forall|k: int|
            0 <= k < final(packages)@.len() ==> built_from(#[trigger] final(packages)@[k], new_records@[k]),
{
    let ghost line = v@.subrange(lo as int, hi as int);
    if lo == hi {
        let mut k: Vec<char> = Vec::new();
        std::mem::swap(key, &mut k);
        let mut val: Vec<char> = Vec::new();
        std::mem::swap(value, &mut val);
        push_field(fields, k, val);
        let r = finish_record(packages, fields, Ghost(records));
        *fields = Vec::new();
        assert(fields_view(fields@) =~= Seq::<(Seq<char>, Seq<char>)>::empty());
        r
    } else {
        match separator_in(v, lo, hi) {
            Some(p) => {
                proof {
                    lemma_find_from(line, field_separator(), 0);
                    assert(line.take(p as int) =~= v@.subrange(lo as int, lo + p));
                    assert(line.skip(p + 3) =~= v@.subrange(lo + p + 3, hi as int));
                }
                let mut k = trimmed(v, lo, lo + p);
                std::mem::swap(key, &mut k);
                let mut val = trimmed(v, lo + p + 3, hi);
                std::mem::swap(value, &mut val);
                push_field(fields, k, val);
            },
            None => {
                if key.len() > 0 {
                    let ghost old_value = value@;
                    value.push(' ');
                    let mut t = trimmed(v, lo, hi);
                    value.append(&mut t);
                    assert(value@ =~= old_value + seq![' '] + trim(line));
                }
            },
        }
        Ghost(records)
    }
}

/// Parses the output of `pacman -Qi` into packages, one per record that names one.
pub fn parse_qi_output(output: &str) -> (r: Vec<Package>)
    ensures
        r@.len() == qi_records(output@).len(),
        forall|k: int| 0 <= k < r@.len() ==> built_from(#[trigger] r@[k], qi_records(output@)[k]),
{
    let v = chars_of(output);
    let ls = crate::text::line_ranges(&v);
    let ghost all = crate::text::lines(v@);
    let mut packages: Vec<Package> = Vec::new();
    let mut fields: Vec<(Vec<char>, Vec<char>)> = Vec::new();
    let mut key: Vec<char> = Vec::new();
    let mut value: Vec<char> = Vec::new();
    let ghost mut records: Seq<Fields> = Seq::empty();
    let mut i: usize = 0;
    assert(all.take(0) =~= Seq::<Seq<char>>::empty());
    assert(fields_view(fields@) =~= Seq::<(Seq<char>, Seq<char>)>::empty());
    while i < ls.len()
        invariant
            i <= ls@.len(),
            all == crate::text::lines(v@),
            ls@.len() == all.len(),
            forall|k: int| 0 <= k < ls@.len() ==> (#[trigger] ls@[k]).0 <= ls@[k].1 <= v@.len(),
            forall|k: int|
                0 <= k < ls@.len() ==> #[trigger] all[k] == v@.subrange(
                    ls@[k].0 as int,
                    ls@[k].1 as int,
                ),
            qi_fold(all.take(i as int)) == (QiState {
                records,
                fields: fields_view(fields@),
                key: key@,
                value: value@,
            }),
            packages@.len() == records.len(),
            forall|k: int| 0 <= k < packages@.len() ==> built_from(#[trigger] packages@[k], records[k]),
        decreases ls@.len() - i,
    {
        let (lo, hi) = ls[i];
        proof {
            assert(all.take(i + 1).drop_last() =~= all.take(i as int));
            assert(all.take(i + 1).last() == all[i as int]);
        }
        let Ghost(r) = read_line(&v, lo, hi, &mut packages, &mut fields, &mut key, &mut value, Ghost(records));
        proof {
            records = r;
        }
        i = i + 1;
    }
    push_field(&mut fields, key, value);
    let Ghost(r) = finish_record(&mut packages, &fields, Ghost(records));
    assert(all.take(ls@.len() as int) =~= all);
    packages
}

} // verus!

verus! {

/// `s` without repeated elements, each kept where it first occurs.
pub open spec fn unique(s: Seq<Seq<char>>) -> Seq<Seq<char>>
    decreases s.len(),
{
    if s.len() == 0 {
        s
    } else {
        let u = unique(s.drop_last());
        if u.contains(s.last()) {
            u
        } else {
            u.push(s.last())
        }
    }
}

/// The first word of each line that has one.
pub open spec fn first_words(ls: Seq<Seq<char>>) -> Seq<Seq<char>>
    decreases ls.len(),
{
    if ls.len() == 0 {
        Seq::empty()
    } else {
        let w = words(ls.last());
        first_words(ls.drop_last()) + if w.len() > 0 {
            seq![w[0]]
        } else {
            Seq::empty()
        }
    }
}

/// Each non-empty line, trimmed.
pub open spec fn trimmed_lines(ls: Seq<Seq<char>>) -> Seq<Seq<char>>
    decreases ls.len(),
{
    if ls.len() == 0 {
        Seq::empty()
    } else {
        trimmed_lines(ls.drop_last()) + if ls.last().len() > 0 {
            seq![trim(ls.last())]
        } else {
            Seq::empty()
        }
    }
}

/// What follows the first space of each line that has a space.
pub open spec fn after_first_space(ls: Seq<Seq<char>>) -> Seq<Seq<char>>
    decreases ls.len(),
{
    if ls.len() == 0 {
        Seq::empty()
    } else {
        after_first_space(ls.drop_last()) + match find(ls.last(), seq![' ']) {
            Some(p) => seq![ls.last().skip(p + 1)],
            None => Seq::empty(),
        }
    }
}

/// Adds `s` to the distinct names `names` unless it is there already.
fn add_unique(names: &mut Vec<String>, s: String)
    ensures
        views(final(names)@) == (if views(old(names)@).contains(s@) {
            views(old(names)@)
        } else {
            views(old(names)@).push(s@)
        }),
{
    let mut k: usize = 0;
    while k < names.len()
        invariant
            k <= names@.len(),
            forall|t: int| 0 <= t < k ==> views(names@)[t] != s@,
        decreases names@.len() - k,
    {
        if names[k] == s {
            assert(views(names@)[k as int] == s@);
            return;
        }
        k = k + 1;
    }
    let ghost prev = names@;
    names.push(s);
    assert(views(names@) =~= views(prev).push(s@));
}

/// The names of foreign packages in the output of `pacman -Qm`: the first
/// word of each line, each name once.
pub fn parse_aur_names(output: &str) -> (r: Vec<String>)
    ensures
        views(r@) == unique(first_words(crate::text::lines(output@))),
        crate::app::distinct(views(r@)),
{
    proof {
        lemma_unique_distinct(first_words(crate::text::lines(output@)));
    }
    let v = chars_of(output);
    let ls = crate::text::line_ranges(&v);
    let ghost all = crate::text::lines(v@);
    let mut r: Vec<String> = Vec::new();
    let mut i: usize = 0;
    assert(all.take(0) =~= Seq::<Seq<char>>::empty());
    assert(views(r@) =~= Seq::<Seq<char>>::empty());
    while i < ls.len()
        invariant
            i <= ls@.len(),
            all == crate::text::lines(v@),
            ls@.len() == all.len(),
            forall|k: int| 0 <= k < ls@.len() ==> (#[trigger] ls@[k]).0 <= ls@[k].1 <= v@.len(),
            forall|k: int|
                0 <= k < ls@.len() ==> #[trigger] all[k] == v@.subrange(ls@[k].0 as int, ls@[k].1 as int),
            views(r@) == unique(first_words(all.take(i as int))),
        decreases ls@.len() - i,
    {
        let (lo, hi) = ls[i];
        let w = words_in(&v, lo, hi);
        proof {
            assert(all.take(i + 1).drop_last() =~= all.take(i as int));
            assert(all.take(i + 1).last() == all[i as int]);
        }
        if w.len() > 0 {
            let first = string_from_str(&w[0]);
            let ghost before = first_words(all.take(i as int));
            assert(first_words(all.take(i + 1)) =~= before.push(w@[0]@));
            assert(first_words(all.take(i + 1)).drop_last() =~= before);
            add_unique(&mut r, first);
        } else {
            assert(first_words(all.take(i + 1)) =~= first_words(all.take(i as int)));
        }
        i = i + 1;
    }
    assert(all.take(ls@.len() as int) =~= all);
    r
}

/// A copy of `s`.
fn string_from_str(s: &String) -> (r: String)
    ensures
        r@ == s@,
{
    s.clone()
}

/// The names of orphan packages in the output of `pacman -Qdtq`: each
/// non-empty line, trimmed, each name once.
pub fn parse_orphan_names(output: &str) -> (r: Vec<String>)
    ensures
        views(r@) == unique(trimmed_lines(crate::text::lines(output@))),
        crate::app::distinct(views(r@)),
{
    proof {
        lemma_unique_distinct(trimmed_lines(crate::text::lines(output@)));
    }
    let v = chars_of(output);
    let ls = crate::text::line_ranges(&v);
    let ghost all = crate::text::lines(v@);
    let mut r: Vec<String> = Vec::new();
    let mut i: usize = 0;
    assert(all.take(0) =~= Seq::<Seq<char>>::empty());
    assert(views(r@) =~= Seq::<Seq<char>>::empty());
    while i < ls.len()
        invariant
            i <= ls@.len(),
            all == crate::text::lines(v@),
            ls@.len() == all.len(),
            forall|k: int| 0 <= k < ls@.len() ==> (#[trigger] ls@[k]).0 <= ls@[k].1 <= v@.len(),
            forall|k: int|
                0 <= k < ls@.len() ==> #[trigger] all[k] == v@.subrange(ls@[k].0 as int, ls@[k].1 as int),
            views(r@) == unique(trimmed_lines(all.take(i as int))),
        decreases ls@.len() - i,
    {
        let (lo, hi) = ls[i];
        proof {
            assert(all.take(i + 1).drop_last() =~= all.take(i as int));
            assert(all.take(i + 1).last() == all[i as int]);
        }
        if hi > lo {
            let t = trimmed(&v, lo, hi);
            let s = string_from(&t);
            let ghost before = trimmed_lines(all.take(i as int));
            assert(trimmed_lines(all.take(i + 1)) =~= before.push(s@));
            assert(trimmed_lines(all.take(i + 1)).drop_last() =~= before);
            add_unique(&mut r, s);
        } else {
            assert(trimmed_lines(all.take(i + 1)) =~= trimmed_lines(all.take(i as int)));
        }
        i = i + 1;
    }
    assert(all.take(ls@.len() as int) =~= all);
    r
}

/// The file paths in the output of `pacman -Ql`: what follows the first
/// space of each line ("name /path").
pub fn parse_package_files(output: &str) -> (r: Vec<String>)
    ensures
        views(r@) == after_first_space(crate::text::lines(output@)),
{
    let v = chars_of(output);
    let ls = crate::text::line_ranges(&v);
    let ghost all = crate::text::lines(v@);
    let space: Vec<char> = vec![' '];
    let mut r: Vec<String> = Vec::new();
    let mut i: usize = 0;
    assert(all.take(0) =~= Seq::<Seq<char>>::empty());
    assert(views(r@) =~= Seq::<Seq<char>>::empty());
    while i < ls.len()
        invariant
            i <= ls@.len(),
            space@ == seq![' '],
            all == crate::text::lines(v@),
            ls@.len() == all.len(),
            forall|k: int| 0 <= k < ls@.len() ==> (#[trigger] ls@[k]).0 <= ls@[k].1 <= v@.len(),
            forall|k: int|
                0 <= k < ls@.len() ==> #[trigger] all[k] == v@.subrange(ls@[k].0 as int, ls@[k].1 as int),
            views(r@) == after_first_space(all.take(i as int)),
        decreases ls@.len() - i,
    {
        let (lo, hi) = ls[i];
        proof {
            assert(all.take(i + 1).drop_last() =~= all.take(i as int));
            assert(all.take(i + 1).last() == all[i as int]);
        }
        let ghost line = all[i as int];
        match find_in(&v, lo, hi, &space) {
            Some(p) => {
                proof {
                    lemma_find_from(line, seq![' '], 0);
                }
                let s = crate::text::string_in(&v, lo + p + 1, hi);
                let ghost prev = r@;
                r.push(s);
                assert(line.skip(p + 1) =~= v@.subrange(lo + p + 1, hi as int));
                assert(views(r@) =~= views(prev).push(s@));
            },
            None => {},
        }
        i = i + 1;
    }
    assert(all.take(ls@.len() as int) =~= all);
    r
}

} // verus!

verus! {

/// `unique` keeps no element twice.
pub proof fn lemma_unique_distinct(s: Seq<Seq<char>>)
    ensures
        crate::app::distinct(unique(s)),
        forall|x: Seq<char>| unique(s).contains(x) <==> s.contains(x),
    decreases s.len(),
{
    if s.len() > 0 {
        lemma_unique_distinct(s.drop_last());
        let u = unique(s.drop_last());
        assert forall|x: Seq<char>| unique(s).contains(x) <==> s.contains(x) by {
            if s.contains(x) {
                let w = choose|w: int| 0 <= w < s.len() && s[w] == x;
                if w < s.len() - 1 {
                    assert(s.drop_last()[w] == x);
                    assert(s.drop_last().contains(x));
                    if !u.contains(s.last()) {
                        let v = choose|v: int| 0 <= v < u.len() && u[v] == x;
                        assert(u.push(s.last())[v] == x);
                    }
                } else {
                    if !u.contains(s.last()) {
                        assert(u.push(s.last())[u.len() as int] == x);
                    }
                }
            }
            if unique(s).contains(x) {
                let v = choose|v: int| 0 <= v < unique(s).len() && unique(s)[v] == x;
                if u.contains(s.last()) {
                    assert(u.contains(x));
                    assert(s.drop_last().contains(x));
                    let w = choose|w: int| 0 <= w < s.drop_last().len() && s.drop_last()[w] == x;
                    assert(s[w] == x);
                } else if v < u.len() {
                    assert(u[v] == x);
                    assert(u.contains(x));
                    assert(s.drop_last().contains(x));
                    let w = choose|w: int| 0 <= w < s.drop_last().len() && s.drop_last()[w] == x;
                    assert(s[w] == x);
                } else {
                    assert(s[s.len() - 1] == x);
                }
            }
        }
    }
}

} // verus!
