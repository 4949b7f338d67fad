//! Known JDK vendors, discovered JDKs, and picking JDKs out of a scanned directory tree.
use vstd::prelude::*;
use crate::path_list::views;
use crate::registry_helper::opt_view;

verus! {

/// A vendor's folder name, and the name shown for it.
pub struct JDKVendor(pub &'static str, pub &'static str);

impl JDKVendor {
    pub fn new(folder_name: &'static str, display_name: &'static str) -> (r: JDKVendor)
        ensures
            r.0@ == folder_name@,
            r.1@ == display_name@,
    {
        JDKVendor(folder_name, display_name)
    }

    /// The vendor as text: `JDKVendor(<folder name>, <display name>)`.
    pub fn to_display_string(&self) -> (r: String)
        ensures
            r@ == "JDKVendor("@ + self.0@ + ", "@ + self.1@ + ")"@,
    {
        let mut r = String::from_str("JDKVendor(");
        r.append(self.0);
        r.append(", ");
        r.append(self.1);
        r.append(")");
        r
    }
}

/// A system location under which JDK vendor folders are searched.
#[derive(Debug, Clone, Copy, PartialEq, Eq, Structural)]
pub enum KnownFolder {
    Profile,
    ProgramFiles,
    ProgramFilesX86,
}

/// A system location and the path below it that holds vendor folders.
pub struct SearchCandidate(pub KnownFolder, pub &'static str);

impl SearchCandidate {
    pub fn new(folder: KnownFolder, inner_path: &'static str) -> (r: SearchCandidate)
        ensures
            r.0 == folder,
            r.1@ == inner_path@,
    {
        SearchCandidate(folder, inner_path)
    }
}

/// The places searched for JDKs, in order: the user profile's `.jdks`, then the 64-bit and
/// the 32-bit program files folders.
pub fn search_candidates() -> (r: Vec<SearchCandidate>)
    ensures
        r@.len() == 3,
        r@[0].0 == KnownFolder::Profile && r@[0].1@ == ".jdks"@,
        r@[1].0 == KnownFolder::ProgramFiles && r@[1].1@ == "."@,
        r@[2].0 == KnownFolder::ProgramFilesX86 && r@[2].1@ == "."@,
{
    vec![
        SearchCandidate::new(KnownFolder::Profile, ".jdks"),
        SearchCandidate::new(KnownFolder::ProgramFiles, "."),
        SearchCandidate::new(KnownFolder::ProgramFilesX86, "."),
    ]
}

/// An installed JDK: the name of its directory and the directory's path.
#[derive(Debug)]
pub struct JDK {
    pub version: String,
    pub path: String,
}

impl JDK {
    pub fn new(version: String, path: String) -> (r: JDK)
        ensures
            r.version == version,
            r.path == path,
    {
        JDK { version, path }
    }

    /// The JDK as text: `JDK(version:<version>, path:"<path>")`, with `\` and `"` in the path
    /// escaped by a backslash.
    pub fn to_display_string(&self) -> (r: String)
        ensures
            r@ == "JDK(version:"@ + self.version@ + ", path:\""@ + escaped(self.path@) + "\")"@,
    {
        let mut r = String::from_str("JDK(version:");
        r.append(self.version.as_str());
        r.append(", path:\"");
        let ghost head = r@;
        let s = self.path.as_str();
        let n = s.unicode_len();
        let mut i: usize = 0;
        while i < n
            invariant
                n == s@.len(),
                s@ == self.path@,
                i <= n,
                r@ == head + escaped(s@.subrange(0, i as int)),
            decreases n - i,
        {
            let ghost pre = s@.subrange(0, i as int);
            assert(s@.subrange(0, i + 1).drop_last() =~= pre);
            let c = s.get_char(i);
            if c == '\\' {
                r.append("\\\\");
                proof {
                    reveal_strlit("\\\\");
                }
            } else if c == '"' {
                r.append("\\\"");
                proof {
                    reveal_strlit("\\\"");
                }
            } else {
                let piece = s.substring_char(i, i + 1);
                r.append(piece);
                assert(piece@ =~= seq![c]);
            }
            assert(r@ =~= head + escaped(s@.subrange(0, i + 1)));
            i += 1;
        }
        assert(s@.subrange(0, n as int) =~= s@);
        r.append("\")");
        r
    }
}

/// `c` as it stands between quotes: a backslash or a quote gets a backslash before it.
pub open spec fn escaped_char(c: char) -> Seq<char> {
    if c == '\\' {
        seq!['\\', '\\']
    } else if c == '"' {
        seq!['\\', '"']
    } else {
        seq![c]
    }
}

/// `s` with each character escaped for quoting.
pub open spec fn escaped(s: Seq<char>) -> Seq<char>
    decreases s.len(),
{
    if s.len() == 0 {
        Seq::empty()
    } else {
        escaped(s.drop_last()) + escaped_char(s.last())
    }
}

pub open spec fn jdk_view(j: JDK) -> (Seq<char>, Seq<char>) {
    (j.version@, j.path@)
}

pub open spec fn jdk_views(js: Seq<JDK>) -> Seq<(Seq<char>, Seq<char>)> {
    js.map_values(|j: JDK| jdk_view(j))
}

/// A directory entry below a vendor folder, as the filesystem showed it: its name, its path,
/// whether it is a directory, and which of `bin`, `include` and `lib` exist inside it.
pub struct VersionDir {
    pub name: String,
    pub path: String,
    pub is_dir: bool,
    pub entries: Vec<String>,
}

/// A directory entry below a search location: its name, whether it is a directory, and the
/// entries below it.
pub struct VendorDir {
    pub name: String,
    pub is_dir: bool,
    pub versions: Vec<VersionDir>,
}

/// The folder prefixes of the known vendors, in table order.
pub open spec fn known_prefixes() -> Seq<Seq<char>> {
    seq![
        "adopt"@,
        "adopt-j9"@,
        "temurin"@,
        "semeru"@,
        "Amazon Corretto"@,
        "graalvm-ce"@,
        "graalvm"@,
        "ibm"@,
        "jbr"@,
        "liberica"@,
        "Java"@,
        "sap"@,
        "Zulu"@,
    ]
}

/// A folder name that names one of the known vendors exactly.
pub open spec fn is_known_vendor(name: Seq<char>) -> bool {
    known_prefixes().contains(name)
}

/// Holds `bin`, `include` and `lib`.
pub open spec fn has_jdk_layout(entries: Seq<Seq<char>>) -> bool {
    entries.contains("bin"@) && entries.contains("include"@) && entries.contains("lib"@)
}

pub open spec fn qualifies(d: VersionDir) -> bool {
    d.is_dir && has_jdk_layout(views(d.entries@))
}

/// The JDKs among the entries below one vendor folder, in listing order.
pub open spec fn jdks_in(ds: Seq<VersionDir>) -> Seq<(Seq<char>, Seq<char>)>
    decreases ds.len(),
{
    if ds.len() == 0 {
        Seq::empty()
    } else {
        let r = jdks_in(ds.drop_last());
        if qualifies(ds.last()) {
            r.push((ds.last().name@, ds.last().path@))
        } else {
            r
        }
    }
}

/// The JDKs below the vendor folders of one search location, in listing order.
pub open spec fn jdks_under(ds: Seq<VendorDir>) -> Seq<(Seq<char>, Seq<char>)>
    decreases ds.len(),
{
    if ds.len() == 0 {
        Seq::empty()
    } else {
        let r = jdks_under(ds.drop_last());
        if ds.last().is_dir && is_known_vendor(ds.last().name@) {
            r + jdks_in(ds.last().versions@)
        } else {
            r
        }
    }
}

/// The JDKs below every search location, location by location.
pub open spec fn jdks_found(roots: Seq<Vec<VendorDir>>) -> Seq<(Seq<char>, Seq<char>)>
    decreases roots.len(),
{
    if roots.len() == 0 {
        Seq::empty()
    } else {
        jdks_found(roots.drop_last()) + jdks_under(roots.last()@)
    }
}

/// A directory below a vendor folder counts as a JDK only with all of `bin`, `include` and
/// `lib`: lacking one of them it is left out, and once that one is created a new scan takes it.
pub proof fn lemma_structural_filter(before: VersionDir, after: VersionDir, created: Seq<char>)
    requires
        before.is_dir,
        after.is_dir,
        after.name@ == before.name@,
        after.path@ == before.path@,
        created == "bin"@ || created == "include"@ || created == "lib"@,
        !views(before.entries@).contains(created),
        forall|d: Seq<char>|
            (d == "bin"@ || d == "include"@ || d == "lib"@) && d != created ==> views(
                before.entries@,
            ).contains(d),
        views(after.entries@) == views(before.entries@).push(created),
    ensures
        jdks_in(seq![before]) == Seq::<(Seq<char>, Seq<char>)>::empty(),
        jdks_in(seq![after]) == seq![(before.name@, before.path@)],
{
    let b = views(before.entries@);
    let a = views(after.entries@);
    assert(seq![before].drop_last() =~= Seq::<VersionDir>::empty());
    assert(seq![after].drop_last() =~= Seq::<VersionDir>::empty());
    assert(seq![before].last() == before);
    assert(seq![after].last() == after);
    assert(jdks_in(Seq::<VersionDir>::empty()) == Seq::<(Seq<char>, Seq<char>)>::empty());
    assert(!qualifies(before));
    assert forall|d: Seq<char>| d == "bin"@ || d == "include"@ || d == "lib"@ implies a.contains(d) by {
        if d == created {
            assert(a[a.len() - 1] == d);
        } else {
            assert(views(before.entries@).contains(d));
            let k = choose|k: int| 0 <= k < b.len() && b[k] == d;
            assert(a[k] == d);
        }
    }
    assert(qualifies(after));
    assert(Seq::<(Seq<char>, Seq<char>)>::empty().push((after.name@, after.path@)) =~= seq![
        (before.name@, before.path@),
    ]);
}

/// Indices `r`, `v`, `d` name a directory of the scan: entry `d` below vendor folder `v` of
/// search location `r`.
pub open spec fn in_tree(roots: Seq<Vec<VendorDir>>, r: int, v: int, d: int) -> bool {
    0 <= r < roots.len() && 0 <= v < roots[r]@.len() && 0 <= d < roots[r]@[v].versions@.len()
}

pub open spec fn dir_at(roots: Seq<Vec<VendorDir>>, r: int, v: int, d: int) -> VersionDir {
    roots[r]@[v].versions@[d]
}

/// The directory at `r`, `v`, `d` is a JDK: it has the layout, below a directory whose name is
/// a known vendor's folder name.
pub open spec fn found_at(roots: Seq<Vec<VendorDir>>, r: int, v: int, d: int) -> bool {
    in_tree(roots, r, v, d) && roots[r]@[v].is_dir && is_known_vendor(roots[r]@[v].name@)
        && qualifies(dir_at(roots, r, v, d))
}

proof fn lemma_jdks_in_sound(ds: Seq<VersionDir>, k: int)
    requires
        0 <= k < jdks_in(ds).len(),
    ensures
        exists|d: int|
            0 <= d < ds.len() && qualifies(#[trigger] ds[d]) && jdks_in(ds)[k] == (
            ds[d].name@,
            ds[d].path@,
        ),
    decreases ds.len(),
{
    let pre = ds.drop_last();
    if k < jdks_in(pre).len() {
        lemma_jdks_in_sound(pre, k);
        let d = choose|d: int|
            0 <= d < pre.len() && qualifies(#[trigger] pre[d]) && jdks_in(pre)[k] == (
            pre[d].name@,
            pre[d].path@,
        );
        assert(ds[d] == pre[d]);
    } else {
        assert(ds[ds.len() - 1] == ds.last());
    }
}

proof fn lemma_jdks_in_complete(ds: Seq<VersionDir>, d: int)
    requires
        0 <= d < ds.len(),
        qualifies(ds[d]),
    ensures
        jdks_in(ds).contains((ds[d].name@, ds[d].path@)),
    decreases ds.len(),
{
    let pre = ds.drop_last();
    if d < ds.len() - 1 {
        assert(pre[d] == ds[d]);
        lemma_jdks_in_complete(pre, d);
        let k = choose|k: int| 0 <= k < jdks_in(pre).len() && jdks_in(pre)[k] == (ds[d].name@, ds[d].path@);
        assert(jdks_in(ds)[k] == jdks_in(pre)[k]);
    } else {
        assert(jdks_in(ds)[jdks_in(ds).len() - 1] == (ds[d].name@, ds[d].path@));
    }
}

proof fn lemma_jdks_under_sound(vs: Seq<VendorDir>, k: int)
    requires
        0 <= k < jdks_under(vs).len(),
    ensures
        exists|v: int, d: int|
            0 <= v < vs.len() && 0 <= d < vs[v].versions@.len() && vs[v].is_dir
                && is_known_vendor(vs[v].name@) && qualifies(#[trigger] vs[v].versions@[d])
                && jdks_under(vs)[k] == (vs[v].versions@[d].name@, vs[v].versions@[d].path@),
    decreases vs.len(),
{
    let pre = vs.drop_last();
    if k < jdks_under(pre).len() {
        lemma_jdks_under_sound(pre, k);
        let (v, d) = choose|v: int, d: int|
            0 <= v < pre.len() && 0 <= d < pre[v].versions@.len() && pre[v].is_dir
                && is_known_vendor(pre[v].name@) && qualifies(#[trigger] pre[v].versions@[d])
                && jdks_under(pre)[k] == (pre[v].versions@[d].name@, pre[v].versions@[d].path@);
        assert(vs[v] == pre[v]);
    } else {
        let v = vs.len() - 1;
        assert(vs[v] == vs.last());
        lemma_jdks_in_sound(vs[v].versions@, k - jdks_under(pre).len());
    }
}

proof fn lemma_jdks_under_complete(vs: Seq<VendorDir>, v: int, d: int)
    requires
        0 <= v < vs.len(),
        0 <= d < vs[v].versions@.len(),
        vs[v].is_dir,
        is_known_vendor(vs[v].name@),
        qualifies(vs[v].versions@[d]),
    ensures
        jdks_under(vs).contains((vs[v].versions@[d].name@, vs[v].versions@[d].path@)),
    decreases vs.len(),
{
    let pre = vs.drop_last();
    let e = (vs[v].versions@[d].name@, vs[v].versions@[d].path@);
    if v < vs.len() - 1 {
        assert(pre[v] == vs[v]);
        lemma_jdks_under_complete(pre, v, d);
        let k = choose|k: int| 0 <= k < jdks_under(pre).len() && jdks_under(pre)[k] == e;
        assert(jdks_under(vs)[k] == e);
    } else {
        assert(vs.last() == vs[v]);
        lemma_jdks_in_complete(vs[v].versions@, d);
        let k = choose|k: int|
            0 <= k < jdks_in(vs[v].versions@).len() && jdks_in(vs[v].versions@)[k] == e;
        assert(jdks_under(vs)[jdks_under(pre).len() + k] == e);
    }
}

/// Every JDK a scan finds comes from a directory that has `bin`, `include` and `lib`, below a
/// directory whose name is a known vendor's folder name.
pub proof fn lemma_found_jdks_qualify(roots: Seq<Vec<VendorDir>>, k: int)
    requires
        0 <= k < jdks_found(roots).len(),
    ensures
        exists|r: int, v: int, d: int|
            #[trigger] found_at(roots, r, v, d) && jdks_found(roots)[k] == (
            dir_at(roots, r, v, d).name@,
            dir_at(roots, r, v, d).path@,
        ),
    decreases roots.len(),
{
    let pre = roots.drop_last();
    if k < jdks_found(pre).len() {
        lemma_found_jdks_qualify(pre, k);
        let (r, v, d) = choose|r: int, v: int, d: int|
            #[trigger] found_at(pre, r, v, d) && jdks_found(pre)[k] == (
            dir_at(pre, r, v, d).name@,
            dir_at(pre, r, v, d).path@,
        );
        assert(roots[r] == pre[r]);
        assert(found_at(roots, r, v, d));
    } else {
        let r = roots.len() - 1;
        assert(roots[r] == roots.last());
        lemma_jdks_under_sound(roots[r]@, k - jdks_found(pre).len());
        let (v, d) = choose|v: int, d: int|
            0 <= v < roots[r]@.len() && 0 <= d < roots[r]@[v].versions@.len() && roots[r]@[v].is_dir
                && is_known_vendor(roots[r]@[v].name@) && qualifies(
                #[trigger] roots[r]@[v].versions@[d],
            ) && jdks_under(roots[r]@)[k - jdks_found(pre).len()] == (
                roots[r]@[v].versions@[d].name@,
                roots[r]@[v].versions@[d].path@,
            );
        assert(found_at(roots, r, v, d));
    }
}

/// Every directory with `bin`, `include` and `lib` below a known vendor's folder is found by
/// the scan: once a missing one of them is created, scanning again finds the JDK.
pub proof fn lemma_qualifying_dirs_found(roots: Seq<Vec<VendorDir>>, r: int, v: int, d: int)
    requires
        found_at(roots, r, v, d),
    ensures
        jdks_found(roots).contains((dir_at(roots, r, v, d).name@, dir_at(roots, r, v, d).path@)),
    decreases roots.len(),
{
    let pre = roots.drop_last();
    let e = (dir_at(roots, r, v, d).name@, dir_at(roots, r, v, d).path@);
    if r < roots.len() - 1 {
        assert(pre[r] == roots[r]);
        lemma_qualifying_dirs_found(pre, r, v, d);
        let k = choose|k: int| 0 <= k < jdks_found(pre).len() && jdks_found(pre)[k] == e;
        assert(jdks_found(roots)[k] == e);
    } else {
        assert(roots.last() == roots[r]);
        lemma_jdks_under_complete(roots[r]@, v, d);
        let k = choose|k: int| 0 <= k < jdks_under(roots[r]@).len() && jdks_under(roots[r]@)[k] == e;
        assert(jdks_found(roots)[jdks_found(pre).len() + k] == e);
    }
}

/// A directory that lacks one of `bin`, `include` and `lib` is left out of the whole scan: where
/// no other directory of the scan has its path, no JDK found has that path.
pub proof fn lemma_incomplete_dir_excluded(roots: Seq<Vec<VendorDir>>, r: int, v: int, d: int)
    requires
        in_tree(roots, r, v, d),
        !has_jdk_layout(views(dir_at(roots, r, v, d).entries@)),
        forall|r2: int, v2: int, d2: int|
            #[trigger] in_tree(roots, r2, v2, d2) && (r2 != r || v2 != v || d2 != d) ==> dir_at(
                roots,
                r2,
                v2,
                d2,
            ).path@ != dir_at(roots, r, v, d).path@,
    ensures
        forall|k: int|
            0 <= k < jdks_found(roots).len() ==> (#[trigger] jdks_found(roots)[k]).1 != dir_at(
                roots,
                r,
                v,
                d,
            ).path@,
{
    assert forall|k: int| 0 <= k < jdks_found(roots).len() implies (#[trigger] jdks_found(
        roots,
    )[k]).1 != dir_at(roots, r, v, d).path@ by {
        lemma_found_jdks_qualify(roots, k);
        let (r2, v2, d2) = choose|r2: int, v2: int, d2: int|
            #[trigger] found_at(roots, r2, v2, d2) && jdks_found(roots)[k] == (
            dir_at(roots, r2, v2, d2).name@,
            dir_at(roots, r2, v2, d2).path@,
        );
        assert(in_tree(roots, r2, v2, d2));
    }
}

/// The subdirectories a JDK must have.
pub fn required_dirs() -> (r: Vec<&'static str>)
    ensures
        r@.len() == 3,
        r@[0]@ == "bin"@,
        r@[1]@ == "include"@,
        r@[2]@ == "lib"@,
{
    vec!["bin", "include", "lib"]
}

fn contains_text(entries: &Vec<String>, t: &str) -> (r: bool)
    ensures
        r == views(entries@).contains(t@),
{
    let target = String::from_str(t);
    let mut i: usize = 0;
    while i < entries.len()
        invariant
            i <= entries@.len(),
            target@ == t@,
            forall|k: int| 0 <= k < i ==> entries@[k]@ != t@,
        decreases entries.len() - i,
    {
        if entries[i] == target {
            assert(views(entries@)[i as int] == t@);
            return true;
        }
        i += 1;
    }
    assert forall|k: int| 0 <= k < views(entries@).len() implies views(entries@)[k] != t@ by {
        assert(views(entries@)[k] == entries@[k]@);
    }
    false
}

/// Whether a directory with the given entries has the layout of a JDK.
pub fn is_jdk(entries: &Vec<String>) -> (r: bool)
    ensures
        r == has_jdk_layout(views(entries@)),
{
    let mut is_jdk = true;
    is_jdk = is_jdk && contains_text(entries, "bin");
    is_jdk = is_jdk && contains_text(entries, "include");
    is_jdk = is_jdk && contains_text(entries, "lib");
    is_jdk
}

/// The JDKs among the entries below one vendor folder, in listing order: each directory that
/// holds `bin`, `include` and `lib`.
pub fn get_jdk_versions(root_dir: &Vec<VersionDir>) -> (r: Vec<JDK>)
    ensures
        jdk_views(r@) == jdks_in(root_dir@),
{
    let mut versions: Vec<JDK> = Vec::new();
    let mut i: usize = 0;
    while i < root_dir.len()
        invariant
            i <= root_dir@.len(),
            jdk_views(versions@) == jdks_in(root_dir@.subrange(0, i as int)),
        decreases root_dir.len() - i,
    {
        let ghost next = root_dir@.subrange(0, i + 1);
        assert(next.drop_last() =~= root_dir@.subrange(0, i as int));
        let entry = &root_dir[i];
        if entry.is_dir && is_jdk(&entry.entries) {
            let ghost before = jdk_views(versions@);
            versions.push(JDK::new(entry.name.clone(), entry.path.clone()));
            assert(jdk_views(versions@) =~= before.push((entry.name@, entry.path@)));
        }
        i += 1;
    }
    assert(root_dir@.subrange(0, root_dir@.len() as int) =~= root_dir@);
    versions
}

/// The vendor table as (folder name, display name) pairs, in lookup order; the last entry is
/// the catch-all for plain `Java` folders.
pub open spec fn vendor_table() -> Seq<(Seq<char>, Seq<char>)> {
    seq![
        ("adopt"@, "AdoptOpenJDK (HotSpot)"@),
        ("adopt-j9"@, "AdoptOpenJDK (OpenJ9)"@),
        ("temurin"@, "Eclipse Temurin"@),
        ("semeru"@, "IBM Semeru"@),
        ("Amazon Corretto"@, "Amazon Corretto"@),
        ("graalvm-ce"@, "GraalVM CE"@),
        ("graalvm"@, "GraalVM"@),
        ("ibm"@, "IBM JDK"@),
        ("jbr"@, "JetBrains Runtime"@),
        ("liberica"@, "BellSoft Liberica"@),
        ("Java"@, "Oracle OpenJDK"@),
        ("sap"@, "SAP SapMachine"@),
        ("Zulu"@, "Azul Zulu"@),
        ("Java"@, ""@),
    ]
}

/// The vendor table, in lookup order; see `vendor_table`.
pub fn known_vendors() -> (r: Vec<JDKVendor>)
    ensures
        r@.len() == 14,
        forall|i: int| 0 <= i < 14 ==> (#[trigger] r@[i].0@, r@[i].1@) == vendor_table()[i],
        forall|name: Seq<char>|
            is_known_vendor(name) <==> exists|i: int| 0 <= i < r@.len() && #[trigger] r@[i].0@ == name,
{
    let r = vec![
        JDKVendor::new("adopt", "AdoptOpenJDK (HotSpot)"),
        JDKVendor::new("adopt-j9", "AdoptOpenJDK (OpenJ9)"),
        JDKVendor::new("temurin", "Eclipse Temurin"),
        JDKVendor::new("semeru", "IBM Semeru"),
        JDKVendor::new("Amazon Corretto", "Amazon Corretto"),
        JDKVendor::new("graalvm-ce", "GraalVM CE"),
        JDKVendor::new("graalvm", "GraalVM"),
        JDKVendor::new("ibm", "IBM JDK"),
        JDKVendor::new("jbr", "JetBrains Runtime"),
        JDKVendor::new("liberica", "BellSoft Liberica"),
        JDKVendor::new("Java", "Oracle OpenJDK"),
        JDKVendor::new("sap", "SAP SapMachine"),
        JDKVendor::new("Zulu", "Azul Zulu"),
        JDKVendor::new("Java", ""),
    ];
    proof {
        let kp = known_prefixes();
        assert forall|name: Seq<char>| is_known_vendor(name) implies exists|i: int|
            0 <= i < r@.len() && #[trigger] r@[i].0@ == name by {
            let k = choose|k: int| 0 <= k < kp.len() && kp[k] == name;
            assert(r@[k].0@ == name);
        }
        assert forall|name: Seq<char>| (exists|i: int| 0 <= i < r@.len() && #[trigger] r@[i].0@ == name)
            implies is_known_vendor(name) by {
            let i = choose|i: int| 0 <= i < r@.len() && #[trigger] r@[i].0@ == name;
            if i < 13 {
                assert(kp[i] == name);
            } else {
                assert(kp[10] == name);
            }
        }
    }
    r
}

/// The first vendor in `vendors` whose folder name is exactly `folder_name`.
pub fn get_jdk_vendor<'h>(vendors: &'h Vec<JDKVendor>, folder_name: &str) -> (r: Option<&'h JDKVendor>)
    ensures
        match r {
            Some(v) => exists|i: int|
                0 <= i < vendors@.len() && *v == vendors@[i] && v.0@ == folder_name@ && forall|j: int|
                    0 <= j < i ==> #[trigger] vendors@[j].0@ != folder_name@,
            None => forall|i: int| 0 <= i < vendors@.len() ==> #[trigger] vendors@[i].0@ != folder_name@,
        },
{
    let target = String::from_str(folder_name);
    let mut i: usize = 0;
    while i < vendors.len()
        invariant
            i <= vendors@.len(),
            target@ == folder_name@,
            forall|j: int| 0 <= j < i ==> #[trigger] vendors@[j].0@ != folder_name@,
        decreases vendors.len() - i,
    {
        let vendor = &vendors[i];
        if String::from_str(vendor.0) == target {
            return Some(vendor);
        }
        i += 1;
    }
    None
}

/// The JDKs found by a scan, location by location and in listing order: below each vendor
/// folder whose name is in the vendor table, each directory that has the layout of a JDK.
pub fn get_jdks(roots: &Vec<Vec<VendorDir>>) -> (r: Vec<JDK>)
    ensures
        jdk_views(r@) == jdks_found(roots@),
{
    let vendors = known_vendors();
    let mut jdks: Vec<JDK> = Vec::new();
    let mut k: usize = 0;
    while k < roots.len()
        invariant
            k <= roots@.len(),
            vendors@.len() == 14,
            forall|name: Seq<char>|
                is_known_vendor(name) <==> exists|i: int|
                    0 <= i < vendors@.len() && #[trigger] vendors@[i].0@ == name,
            jdk_views(jdks@) == jdks_found(roots@.subrange(0, k as int)),
        decreases roots.len() - k,
    {
        let ghost next = roots@.subrange(0, k + 1);
        assert(next.drop_last() =~= roots@.subrange(0, k as int));
        let dirs = &roots[k];
        let ghost base = jdk_views(jdks@);
        let mut d: usize = 0;
        while d < dirs.len()
            invariant
                d <= dirs@.len(),
                vendors@.len() == 14,
                forall|name: Seq<char>|
                    is_known_vendor(name) <==> exists|i: int|
                        0 <= i < vendors@.len() && #[trigger] vendors@[i].0@ == name,
                jdk_views(jdks@) == base + jdks_under(dirs@.subrange(0, d as int)),
            decreases dirs.len() - d,
        {
            let ghost nd = dirs@.subrange(0, d + 1);
            assert(nd.drop_last() =~= dirs@.subrange(0, d as int));
            let dir = &dirs[d];
            if dir.is_dir {
                match get_jdk_vendor(&vendors, dir.name.as_str()) {
                    Some(_) => {
                        let found = get_jdk_versions(&dir.versions);
                        let ghost mid = jdk_views(jdks@);
                        let mut j: usize = 0;
                        while j < found.len()
                            invariant
                                j <= found@.len(),
                                jdk_views(jdks@) == mid + jdk_views(found@.subrange(0, j as int)),
                            decreases found.len() - j,
                        {
                            let ghost pre = jdk_views(jdks@);
                            jdks.push(JDK::new(found[j].version.clone(), found[j].path.clone()));
                            assert(jdk_views(jdks@) =~= pre.push(jdk_view(found@[j as int])));
                            assert(jdk_views(found@.subrange(0, j + 1)) =~= jdk_views(
                                found@.subrange(0, j as int),
                            ).push(jdk_view(found@[j as int])));
                            j += 1;
                        }
                        assert(found@.subrange(0, found@.len() as int) =~= found@);
                        assert(is_known_vendor(dir.name@));
                    },
                    None => {
                        assert(!is_known_vendor(dir.name@));
                    },
                }
            }
            d += 1;
        }
        assert(dirs@.subrange(0, dirs@.len() as int) =~= dirs@);
        k += 1;
    }
    assert(roots@.subrange(0, roots@.len() as int) =~= roots@);
    jdks
}

pub open spec fn is_separator(c: char) -> bool {
    c == '\\' || c == '/'
}

/// The index of the last path separator in `s`, or -1.
pub open spec fn last_separator(s: Seq<char>) -> int
    decreases s.len(),
{
    if s.len() == 0 {
        -1
    } else if is_separator(s.last()) {
        s.len() - 1
    } else {
        last_separator(s.drop_last())
    }
}

/// `s` without its last component, where it has a separator.
pub open spec fn parent_of(s: Seq<char>) -> Option<Seq<char>> {
    if last_separator(s) < 0 {
        None
    } else {
        Some(s.subrange(0, last_separator(s)))
    }
}

/// The JDK directory of a launcher path such as `C:\jdk\bin\java.exe`: two levels up.
pub open spec fn jdk_dir_of(launcher: Seq<char>) -> Option<Seq<char>> {
    match parent_of(launcher) {
        Some(b) => parent_of(b),
        None => None,
    }
}

proof fn lemma_last_separator_bound(s: Seq<char>)
    ensures
        -1 <= last_separator(s) < s.len(),
    decreases s.len(),
{
    if s.len() > 0 {
        lemma_last_separator_bound(s.drop_last());
    }
}

/// `s` without its last component.
pub fn parent_path(s: &str) -> (r: Option<String>)
    ensures
        opt_view(r) == parent_of(s@),
{
    let mut i = s.unicode_len();
    assert(s@.subrange(0, i as int) =~= s@);
    while i > 0 && !(s.get_char(i - 1) == '\\' || s.get_char(i - 1) == '/')
        invariant
            i <= s@.len(),
            last_separator(s@) == last_separator(s@.subrange(0, i as int)),
        decreases i,
    {
        assert(s@.subrange(0, i as int).drop_last() =~= s@.subrange(0, i - 1));
        i -= 1;
    }
    proof {
        lemma_last_separator_bound(s@);
    }
    if i == 0 {
        assert(s@.subrange(0, 0) =~= Seq::<char>::empty());
        None
    } else {
        Some(String::from_str(s.substring_char(0, i - 1)))
    }
}

/// The position in `jdks` of the JDK that holds `launcher` (the path where the system finds
/// `java`): the first JDK whose path is the launcher's directory two levels up.
pub fn current_jdk_index(jdks: &Vec<JDK>, launcher: &str) -> (r: Option<usize>)
    ensures
        match jdk_dir_of(launcher@) {
            Some(d) => match r {
                Some(i) => i < jdks@.len() && jdks@[i as int].path@ == d && forall|j: int|
                    0 <= j < i ==> #[trigger] jdks@[j].path@ != d,
                None => forall|j: int| 0 <= j < jdks@.len() ==> #[trigger] jdks@[j].path@ != d,
            },
            None => r is None,
        },
{
    let bin = match parent_path(launcher) {
        Some(b) => b,
        None => {
            return None;
        },
    };
    let home = match parent_path(bin.as_str()) {
        Some(h) => h,
        None => {
            return None;
        },
    };
    let mut i: usize = 0;
    while i < jdks.len()
        invariant
            i <= jdks@.len(),
            jdk_dir_of(launcher@) == Some(home@),
            forall|j: int| 0 <= j < i ==> #[trigger] jdks@[j].path@ != home@,
        decreases jdks.len() - i,
    {
        if jdks[i].path == home {
            return Some(i);
        }
        i += 1;
    }
    None
}

} // verus!
