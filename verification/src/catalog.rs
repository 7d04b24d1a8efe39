use vstd::prelude::*;
use vstd::seq_lib::group_to_multiset_ensures;
use crate::enablement::{ModInstallation, InstallV, has_marker, enabled_marker, is_mod_enabled};
use crate::fstree::{lookup, entries_view, str_views, find_entry};
use crate::pipeline::{contains_str, zip_file_name, contains_name, is_mod_successfully_downloaded};
use crate::queue::SourceDir;
use crate::strutil::{trim_spec, trim_str, str_eq};

verus! {

// ----------------------------------------------------------------------------
// The catalog: what a source's mod list describes
// ----------------------------------------------------------------------------

/// One mod as the catalog lists it, with any locally detected newer version.
pub struct Mod {
    pub name: String,
    pub version: String,
    pub url: Option<String>,
    pub new_version: Option<String>,
    pub description: String,
}

pub struct ModV {
    pub name: Seq<char>,
    pub version: Seq<char>,
    pub url: Option<Seq<char>>,
    pub new_version: Option<Seq<char>>,
    pub description: Seq<char>,
}

impl View for Mod {
    type V = ModV;

    open spec fn view(&self) -> ModV {
        ModV {
            name: self.name@,
            version: self.version@,
            url: match self.url {
                Some(u) => Some(u@),
                None => None,
            },
            new_version: match self.new_version {
                Some(v) => Some(v@),
                None => None,
            },
            description: self.description@,
        }
    }
}

/// One named group of mods, ordered among the others by its sort key.
pub struct Category {
    pub name: String,
    pub sort_order: i32,
    pub mods: Vec<Mod>,
}

pub struct CategoryV {
    pub name: Seq<char>,
    pub sort_order: int,
    pub mods: Seq<ModV>,
}

pub open spec fn mod_views(ms: Seq<Mod>) -> Seq<ModV> {
    ms.map_values(|m: Mod| m@)
}

impl View for Category {
    type V = CategoryV;

    open spec fn view(&self) -> CategoryV {
        CategoryV { name: self.name@, sort_order: self.sort_order as int, mods: mod_views(self.mods@) }
    }
}

/// The whole parsed catalog.
pub struct ModsFile {
    pub categories: Vec<Category>,
}

/// What the caller receives: the categories and, when the catalog could not
/// be fetched fresh, the error text that explains it.
pub struct ModsResult {
    pub categories: Vec<Category>,
    pub error: Option<String>,
}

pub open spec fn category_views(cs: Seq<Category>) -> Seq<CategoryV> {
    cs.map_values(|c: Category| c@)
}

impl Mod {
    /// A mod found in the sideload directory rather than a catalog.
    pub fn new_sideloaded(name: String, version: String, description: String) -> (r: Mod)
        ensures
            r@.name == name@,
            r@.version == version@,
            r@.description == description@,
            r@.url is None,
            r@.new_version is None,
    {
        Mod { name, version, url: None, new_version: None, description }
    }

    /// A mod present locally but no longer listed by its catalog.
    pub fn new_deprecated(name: String, version: String, description: String) -> (r: Mod)
        ensures
            r@.name == name@,
            r@.version == version@,
            r@.description == description@,
            r@.url is None,
            r@.new_version is None,
    {
        Mod { name, version, url: None, new_version: None, description }
    }
}

impl Category {
    /// The category of sideloaded mods; the caller fixes its sort key later.
    pub fn new_sideloaded(mods: Vec<Mod>) -> (r: Category)
        ensures
            r@.name == "Sideloaded"@,
            r@.sort_order == 0,
            r.mods@ == mods@,
    {
        Category { name: String::from_str("Sideloaded"), sort_order: 0, mods }
    }

    /// The category of deprecated mods; its sort key keeps it first with a
    /// margin below every catalog category.
    pub fn new_deprecated(mods: Vec<Mod>) -> (r: Category)
        ensures
            r@.name == "Deprecated"@,
            r@.sort_order == -999,
            r.mods@ == mods@,
    {
        Category { name: String::from_str("Deprecated"), sort_order: -999, mods }
    }
}

// ----------------------------------------------------------------------------
// Reading local metadata
// ----------------------------------------------------------------------------

/// What a locally found mod directory yields: the directory name, the trimmed
/// VERSION.txt or "Unknown", and the trimmed README.txt or a placeholder.
pub fn read_mod_metadata(
    name: &str,
    version_file: Option<&str>,
    readme_file: Option<&str>,
    deprecated: bool,
) -> (r: Mod)
    ensures
        r@.name == name@,
        r@.url is None,
        r@.new_version is None,
        r@.version == match version_file {
            Some(c) => trim_spec(c@),
            None => "Unknown"@,
        },
        r@.description == match readme_file {
            Some(c) => trim_spec(c@),
            None => (if deprecated {
                "Deprecated mod: "@
            } else {
                "Sideloaded mod: "@
            }) + name@,
        },
{
    let version = match version_file {
        Some(c) => trim_str(c),
        None => String::from_str("Unknown"),
    };
    let description = match readme_file {
        Some(c) => trim_str(c),
        None => if deprecated {
            String::from_str("Deprecated mod: ").concat(name)
        } else {
            String::from_str("Sideloaded mod: ").concat(name)
        },
    };
    Mod {
        name: String::from_str(name),
        version,
        url: None,
        new_version: None,
        description,
    }
}

// ----------------------------------------------------------------------------
// Update detection
// ----------------------------------------------------------------------------

/// How one catalog entry changes once the locally installed version is known:
/// a differing local version becomes the current one, and the catalog's
/// version is kept aside as the available update.
pub open spec fn updated_mod(m: ModV, locals: Seq<(Seq<char>, Seq<char>)>) -> ModV {
    match lookup(locals, m.name) {
        Some(lv) => if lv != m.version {
            ModV {
                name: m.name,
                version: lv,
                url: m.url,
                new_version: Some(m.version),
                description: m.description,
            }
        } else {
            m
        },
        None => m,
    }
}

pub struct ModParser;

impl ModParser {
    /// Marks every catalog mod whose locally installed version differs from
    /// the listed one: the local version becomes current and the catalog's
    /// becomes the available update.  `locals` maps each locally installed
    /// mod's name to the trimmed content of its VERSION.txt.
    pub fn check_for_updates(xml_mods: &ModsFile, locals: &Vec<(String, String)>) -> (r: ModsFile)
        ensures
            r.categories@.len() == xml_mods.categories@.len(),
            forall|c: int|
                0 <= c < r.categories@.len() ==> {
                    let rc = #[trigger] r.categories@[c];
                    let xc = xml_mods.categories@[c];
                    rc@.name == xc@.name && rc@.sort_order == xc@.sort_order && rc.mods@.len()
                        == xc.mods@.len() && (forall|m: int|
                        0 <= m < rc.mods@.len() ==> (#[trigger] rc.mods@[m])@ == updated_mod(
                            xc.mods@[m]@,
                            entries_view(locals@),
                        ))
                },
    {
        let mut out: Vec<Category> = Vec::new();
        let mut c: usize = 0;
        while c < xml_mods.categories.len()
            invariant
                0 <= c <= xml_mods.categories@.len(),
                out@.len() == c,
                forall|k: int|
                    0 <= k < c ==> {
                        let rc = #[trigger] out@[k];
                        let xc = xml_mods.categories@[k];
                        rc@.name == xc@.name && rc@.sort_order == xc@.sort_order && rc.mods@.len()
                            == xc.mods@.len() && (forall|m: int|
                            0 <= m < rc.mods@.len() ==> (#[trigger] rc.mods@[m])@ == updated_mod(
                                xc.mods@[m]@,
                                entries_view(locals@),
                            ))
                    },
            decreases xml_mods.categories@.len() - c,
        {
            let cat = &xml_mods.categories[c];
            let mut mods: Vec<Mod> = Vec::new();
            let mut m: usize = 0;
            while m < cat.mods.len()
                invariant
                    0 <= m <= cat.mods@.len(),
                    mods@.len() == m,
                    cat == &xml_mods.categories@[c as int],
                    0 <= c < xml_mods.categories@.len(),
                    forall|k: int|
                        0 <= k < m ==> (#[trigger] mods@[k])@ == updated_mod(
                            cat.mods@[k]@,
                            entries_view(locals@),
                        ),
                decreases cat.mods@.len() - m,
            {
                let entry = &cat.mods[m];
                let updated = match find_entry(locals, entry.name.as_str()) {
                    Some(j) => {
                        proof {
                            let lv = entries_view(locals@);
                            assert(forall|k: int|
                                0 <= k < lv.len() ==> (#[trigger] lv[k]).0 == locals@[k].0@);
                            crate::fstree::lemma_ops_at_first(lv, j as int, lv[j as int].1);
                            assert(lookup(lv, entry.name@) == Some(locals@[j as int].1@));
                        }
                        if !str_eq(locals[j].1.as_str(), entry.version.as_str()) {
                            Mod {
                                name: entry.name.clone(),
                                version: locals[j].1.clone(),
                                url: clone_opt(&entry.url),
                                new_version: Some(entry.version.clone()),
                                description: entry.description.clone(),
                            }
                        } else {
                            clone_mod(entry)
                        }
                    },
                    None => {
                        proof {
                            let lv = entries_view(locals@);
                            assert(forall|k: int|
                                0 <= k < lv.len() ==> (#[trigger] lv[k]).0 == locals@[k].0@);
                            crate::fstree::lemma_lookup_none(lv, entry.name@);
                        }
                        clone_mod(entry)
                    },
                };
                mods.push(updated);
                m = m + 1;
            }
            out.push(
                Category { name: cat.name.clone(), sort_order: cat.sort_order, mods },
            );
            c = c + 1;
        }
        ModsFile { categories: out }
    }
}

fn clone_opt(o: &Option<String>) -> (r: Option<String>)
    ensures
        r == o,
{
    match o {
        Some(s) => Some(s.clone()),
        None => None,
    }
}

fn clone_mod(m: &Mod) -> (r: Mod)
    ensures
        r@ == m@,
        r == m,
{
    Mod {
        name: m.name.clone(),
        version: m.version.clone(),
        url: clone_opt(&m.url),
        new_version: clone_opt(&m.new_version),
        description: m.description.clone(),
    }
}

// ----------------------------------------------------------------------------
// Local scans
// ----------------------------------------------------------------------------

/// The candidates that are deprecated: present locally but absent from the
/// catalog's active names.
pub open spec fn deprecated_of(cands: Seq<ModV>, active: Seq<Seq<char>>) -> Seq<ModV>
    decreases cands.len(),
{
    if cands.len() == 0 {
        cands
    } else {
        let p = deprecated_of(cands.drop_last(), active);
        if contains_str(active, cands.last().name) {
            p
        } else {
            p.push(cands.last())
        }
    }
}

/// Collects the locally installed mods that the catalog no longer lists into
/// the deprecated category.
pub fn scan_for_deprecated_mods(candidates: &Vec<Mod>, active: &Vec<String>) -> (r: Category)
    ensures
        r@.name == "Deprecated"@,
        r@.sort_order == -999,
        mod_views(r.mods@) == deprecated_of(mod_views(candidates@), str_views(active@)),
{
    let mut kept: Vec<Mod> = Vec::new();
    let mut i: usize = 0;
    proof {
        assert(mod_views(candidates@).take(0) =~= Seq::<ModV>::empty());
        assert(mod_views(kept@) =~= Seq::<ModV>::empty());
    }
    while i < candidates.len()
        invariant
            0 <= i <= candidates@.len(),
            mod_views(kept@) =~= deprecated_of(
                mod_views(candidates@).take(i as int),
                str_views(active@),
            ),
        decreases candidates@.len() - i,
    {
        let ghost cv = mod_views(candidates@);
        proof {
            assert(cv.take(i as int + 1).drop_last() =~= cv.take(i as int));
            assert(cv.take(i as int + 1).last() == cv[i as int]);
        }
        if !crate::pipeline::contains_name(active, candidates[i].name.as_str()) {
            let ghost k0 = mod_views(kept@);
            kept.push(clone_mod(&candidates[i]));
            proof {
                assert(mod_views(kept@) =~= k0.push(cv[i as int]));
            }
        }
        i = i + 1;
    }
    proof {
        assert(mod_views(candidates@).take(candidates@.len() as int) =~= mod_views(candidates@));
    }
    Category::new_deprecated(kept)
}

/// The names of the installed mods that are enabled for this profile, in
/// scan order.
pub open spec fn enabled_names(insts: Seq<InstallV>, profile: Seq<char>) -> Seq<Seq<char>>
    decreases insts.len(),
{
    if insts.len() == 0 {
        Seq::empty()
    } else {
        let p = enabled_names(insts.drop_last(), profile);
        if has_marker(insts.last().markers, enabled_marker(profile)) {
            p.push(insts.last().name)
        } else {
            p
        }
    }
}

pub open spec fn install_views(insts: Seq<ModInstallation>) -> Seq<InstallV> {
    insts.map_values(|i: ModInstallation| i@)
}

/// Which mods of this source are enabled for the profile.
pub fn get_enabled_mods(insts: &Vec<ModInstallation>, profile_name: &str) -> (r: Vec<String>)
    ensures
        str_views(r@) == enabled_names(install_views(insts@), profile_name@),
{
    let mut out: Vec<String> = Vec::new();
    let mut i: usize = 0;
    proof {
        assert(install_views(insts@).take(0) =~= Seq::<InstallV>::empty());
        assert(str_views(out@) =~= Seq::<Seq<char>>::empty());
    }
    while i < insts.len()
        invariant
            0 <= i <= insts@.len(),
            str_views(out@) =~= enabled_names(
                install_views(insts@).take(i as int),
                profile_name@,
            ),
        decreases insts@.len() - i,
    {
        let ghost iv = install_views(insts@);
        proof {
            assert(iv.take(i as int + 1).drop_last() =~= iv.take(i as int));
            assert(iv.take(i as int + 1).last() == iv[i as int]);
        }
        if is_mod_enabled(&insts[i], profile_name) {
            let ghost o0 = str_views(out@);
            out.push(insts[i].name.clone());
            proof {
                assert(str_views(out@) =~= o0.push(iv[i as int].name));
            }
        }
        i = i + 1;
    }
    proof {
        assert(install_views(insts@).take(insts@.len() as int) =~= install_views(insts@));
    }
    out
}

// ----------------------------------------------------------------------------
// Sorting categories
// ----------------------------------------------------------------------------

pub open spec fn sorted_by_order(cs: Seq<Category>) -> bool {
    forall|i: int, j: int|
        0 <= i < j < cs.len() ==> (#[trigger] cs[i]).sort_order <= (#[trigger] cs[j]).sort_order
}

fn clone_category(c: &Category) -> (r: Category)
    ensures
        r@ == c@,
{
    let mut mods: Vec<Mod> = Vec::new();
    let mut i: usize = 0;
    while i < c.mods.len()
        invariant
            0 <= i <= c.mods@.len(),
            mod_views(mods@) =~= mod_views(c.mods@).take(i as int),
        decreases c.mods@.len() - i,
    {
        let ghost m0 = mods@;
        mods.push(clone_mod(&c.mods[i]));
        proof {
            assert(mods@.last()@ == c.mods@[i as int]@);
            assert(forall|x: int| 0 <= x < m0.len() ==> mods@[x] == m0[x]);
            assert(forall|x: int|
                0 <= x < m0.len() ==> mod_views(mods@)[x] == mod_views(m0)[x]);
            assert(mod_views(mods@).len() == m0.len() + 1);
            assert(mod_views(m0).len() == m0.len());
            assert(mod_views(mods@)[m0.len() as int] == mods@.last()@);
            assert(mod_views(mods@) =~= mod_views(c.mods@).take(i as int + 1));
        }
        i = i + 1;
    }
    proof {
        assert(mod_views(c.mods@).take(c.mods@.len() as int) =~= mod_views(c.mods@));
    }
    Category { name: c.name.clone(), sort_order: c.sort_order, mods }
}

/// The categories ordered by their sort key, stably enough for display: the
/// result holds exactly the input categories, by view, in key order.
pub fn sort_categories(cats: &Vec<Category>) -> (r: Vec<Category>)
    ensures
        category_views(r@).to_multiset() == category_views(cats@).to_multiset(),
        sorted_by_order(r@),
{
    broadcast use group_to_multiset_ensures;

    let mut out: Vec<Category> = Vec::new();
    let mut i: usize = 0;
    proof {
        assert(category_views(out@) =~= Seq::<CategoryV>::empty());
        assert(category_views(cats@).take(0) =~= Seq::<CategoryV>::empty());
    }
    while i < cats.len()
        invariant
            0 <= i <= cats@.len(),
            category_views(out@).to_multiset() == category_views(cats@).take(
                i as int,
            ).to_multiset(),
            sorted_by_order(out@),
        decreases cats@.len() - i,
    {
        let c = clone_category(&cats[i]);
        let ghost cv = c@;
        let ghost o0 = out@;
        // find the insertion point that keeps the keys ordered
        let mut k: usize = 0;
        while k < out.len() && out[k].sort_order <= c.sort_order
            invariant
                0 <= k <= out@.len(),
                out@ == o0,
                forall|x: int| 0 <= x < k ==> (#[trigger] out@[x]).sort_order <= c.sort_order,
            decreases out@.len() - k,
        {
            k = k + 1;
        }
        out.insert(k, c);
        proof {
            assert(out@ == o0.insert(k as int, out@[k as int]));
            assert(out@[k as int]@ == cv);
            // ordering is kept on both sides of the insertion point
            assert(sorted_by_order(out@)) by {
                assert(forall|x: int| 0 <= x < k ==> #[trigger] out@[x] == o0[x]);
                assert(forall|x: int|
                    k < x < out@.len() ==> #[trigger] out@[x] == o0[x - 1]);
                assert(k < out@.len());
                assert(forall|x: int|
                    k < x < out@.len() ==> out@[k as int].sort_order <= (
                    #[trigger] out@[x]).sort_order) by {
                    assert(k < out@.len() - 1 ==> o0[k as int].sort_order > out@[
                        k as int].sort_order || o0[k as int].sort_order <= o0[k as int].sort_order);
                }
            }
            // the multiset gains exactly the inserted view
            assert(out@.remove(k as int) =~= o0);
            assert(category_views(out@).remove(k as int) =~= category_views(o0));
            assert(category_views(out@)[k as int] == cv);
            assert(0 <= k < category_views(out@).len()) by {
                assert(category_views(out@).len() == out@.len());
            }
            category_views(out@).to_multiset_ensures();
            category_views(o0).to_multiset_ensures();
            assert(category_views(out@).remove(k as int).to_multiset() == category_views(
                out@,
            ).to_multiset().remove(category_views(out@)[k as int]));
            assert(category_views(o0).to_multiset() == category_views(out@).to_multiset().remove(
                cv,
            ));
            assert(category_views(out@).to_multiset().count(cv) > 0) by {
                assert(category_views(out@).contains(cv)) by {
                    assert(category_views(out@)[k as int] == cv);
                }
            }
            assert(category_views(out@).to_multiset() =~= category_views(o0).to_multiset().insert(
                cv,
            ));
            assert(category_views(cats@).take(i as int + 1).drop_last() =~= category_views(
                cats@,
            ).take(i as int));
            assert(category_views(cats@).take(i as int + 1) =~= category_views(cats@).take(
                i as int,
            ).push(cv));
            category_views(cats@).take(i as int).to_multiset_ensures();
            assert(category_views(cats@).take(i as int).push(cv).to_multiset() == category_views(
                cats@,
            ).take(i as int).to_multiset().insert(cv));
        }
        i = i + 1;
    }
    proof {
        assert(category_views(cats@).take(cats@.len() as int) =~= category_views(cats@));
    }
    out
}


/// Whether this source holds the mod in the successfully-downloaded shape:
/// the extracted directory present, the archive gone.
pub open spec fn downloaded_in(src: SourceDir, name: Seq<char>) -> bool {
    contains_str(str_views(src.dirs@), name) && !contains_str(
        str_views(src.files@),
        zip_file_name(name),
    )
}

/// The downloaded mod names one source contributes, in directory order.
pub open spec fn source_downloaded(src: SourceDir) -> Seq<Seq<char>>
    decreases src.dirs@.len(),
{
    downloaded_prefix(src, src.dirs@.len() as int)
}

pub open spec fn downloaded_prefix(src: SourceDir, n: int) -> Seq<Seq<char>>
    decreases n,
{
    if n <= 0 {
        Seq::empty()
    } else {
        let p = downloaded_prefix(src, n - 1);
        if downloaded_in(src, str_views(src.dirs@)[n - 1]) {
            p.push(str_views(src.dirs@)[n - 1])
        } else {
            p
        }
    }
}

/// All sources' contributions, concatenated in source order.
pub open spec fn all_downloaded(sources: Seq<SourceDir>) -> Seq<Seq<char>>
    decreases sources.len(),
{
    if sources.len() == 0 {
        Seq::empty()
    } else {
        all_downloaded(sources.drop_last()) + source_downloaded(sources.last())
    }
}

/// The names with later repetitions dropped: the first occurrence stays.
pub open spec fn dedup_names(names: Seq<Seq<char>>) -> Seq<Seq<char>>
    decreases names.len(),
{
    if names.len() == 0 {
        names
    } else {
        let p = dedup_names(names.drop_last());
        if contains_str(p, names.last()) {
            p
        } else {
            p.push(names.last())
        }
    }
}

/// The names of all successfully downloaded mods across every source, each
/// once, followed by the sideloaded directory names as found.
pub fn get_downloaded_mods(sources: &Vec<SourceDir>, sideload: &Vec<String>) -> (r: Vec<String>)
    ensures
        str_views(r@) == dedup_names(all_downloaded(sources@)) + str_views(sideload@),
{
    let mut out: Vec<String> = Vec::new();
    let mut i: usize = 0;
    proof {
        assert(sources@.take(0) =~= Seq::<SourceDir>::empty());
        assert(str_views(out@) =~= dedup_names(all_downloaded(sources@.take(0))));
    }
    while i < sources.len()
        invariant
            0 <= i <= sources@.len(),
            str_views(out@) =~= dedup_names(all_downloaded(sources@.take(i as int))),
        decreases sources@.len() - i,
    {
        let src = &sources[i];
        let n = src.dirs.len();
        let mut k: usize = 0;
        proof {
            assert(sources@.take(i as int + 1).drop_last() =~= sources@.take(i as int));
            assert(sources@.take(i as int + 1).last() == sources@[i as int]);
            lemma_dedup_concat(
                all_downloaded(sources@.take(i as int)),
                downloaded_prefix(sources@[i as int], 0),
            );
            assert(downloaded_prefix(sources@[i as int], 0) =~= Seq::<Seq<char>>::empty());
            assert(all_downloaded(sources@.take(i as int)) + Seq::<Seq<char>>::empty()
                =~= all_downloaded(sources@.take(i as int)));
        }
        while k < n
            invariant
                0 <= k <= n,
                0 <= i < sources@.len(),
                n == src.dirs@.len(),
                src == &sources@[i as int],
                str_views(out@) =~= dedup_names(
                    all_downloaded(sources@.take(i as int)) + downloaded_prefix(
                        sources@[i as int],
                        k as int,
                    ),
                ),
            decreases n - k,
        {
            let ghost whole = all_downloaded(sources@.take(i as int)) + downloaded_prefix(
                sources@[i as int],
                k as int,
            );
            let name = &src.dirs[k];
            if is_mod_successfully_downloaded(src, name.as_str()) && !contains_name(
                &out,
                name.as_str(),
            ) {
                let ghost o0 = str_views(out@);
                out.push(name.clone());
                proof {
                    assert(str_views(out@) =~= o0.push(name@));
                }
            }
            proof {
                let nv = str_views(src.dirs@)[k as int];
                assert(nv == name@);
                if downloaded_in(sources@[i as int], nv) {
                    assert(whole.push(nv) =~= all_downloaded(sources@.take(i as int))
                        + downloaded_prefix(sources@[i as int], k as int + 1));
                    assert(dedup_names(whole.push(nv)) == if contains_str(dedup_names(whole), nv) {
                        dedup_names(whole)
                    } else {
                        dedup_names(whole).push(nv)
                    }) by {
                        assert(whole.push(nv).drop_last() =~= whole);
                    }
                } else {
                    assert(whole =~= all_downloaded(sources@.take(i as int)) + downloaded_prefix(
                        sources@[i as int],
                        k as int + 1,
                    ));
                }
            }
            k = k + 1;
        }
        proof {
            assert(downloaded_prefix(sources@[i as int], n as int) == source_downloaded(
                sources@[i as int],
            ));
            assert(all_downloaded(sources@.take(i as int + 1)) =~= all_downloaded(
                sources@.take(i as int),
            ) + source_downloaded(sources@[i as int]));
        }
        i = i + 1;
    }
    proof {
        assert(sources@.take(sources@.len() as int) =~= sources@);
    }
    let mut j: usize = 0;
    let ghost base = str_views(out@);
    while j < sideload.len()
        invariant
            0 <= j <= sideload@.len(),
            str_views(out@) =~= base + str_views(sideload@).take(j as int),
        decreases sideload@.len() - j,
    {
        let ghost o0 = str_views(out@);
        out.push(sideload[j].clone());
        proof {
            assert(str_views(out@) =~= o0.push(str_views(sideload@)[j as int]));
            assert(o0.push(str_views(sideload@)[j as int]) =~= base + str_views(
                sideload@,
            ).take(j as int + 1));
        }
        j = j + 1;
    }
    proof {
        assert(str_views(sideload@).take(sideload@.len() as int) =~= str_views(sideload@));
    }
    out
}

proof fn lemma_dedup_concat(a: Seq<Seq<char>>, b: Seq<Seq<char>>)
    ensures
        b.len() == 0 ==> dedup_names(a + b) == dedup_names(a),
{
    if b.len() == 0 {
        assert(a + b =~= a);
    }
}

} // verus!
