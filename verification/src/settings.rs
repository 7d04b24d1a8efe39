use vstd::prelude::*;
use crate::errors::ModError;
use crate::fstree::str_views;
use crate::strutil::{str_eq, u64_to_string, dec_digits};

verus! {

// ----------------------------------------------------------------------------
// Persisted configuration
//
// The surrounding application loads and saves the settings file; everything
// that decides what the settings become lives here.
// ----------------------------------------------------------------------------

/// One named target configuration: the tree mods are enabled into and the
/// catalog it downloads from.
pub struct Profile {
    pub name: String,
    pub dcs_path: String,
    pub repo_url: String,
}

pub struct ProfileV {
    pub name: Seq<char>,
    pub dcs_path: Seq<char>,
    pub repo_url: Seq<char>,
}

impl View for Profile {
    type V = ProfileV;

    open spec fn view(&self) -> ProfileV {
        ProfileV { name: self.name@, dcs_path: self.dcs_path@, repo_url: self.repo_url@ }
    }
}

#[derive(Debug, PartialEq, Eq, Structural, Clone, Copy)]
pub enum DarkMode {
    System,
    Light,
    Dark,
}

pub struct Settings {
    pub dark_mode: DarkMode,
    pub download_path: String,
    pub sideload_path: String,
    pub profiles: Vec<Profile>,
    pub cached_xml_paths: Vec<String>,
}

pub struct SettingsV {
    pub dark_mode: DarkMode,
    pub download_path: Seq<char>,
    pub sideload_path: Seq<char>,
    pub profiles: Seq<ProfileV>,
    pub cached_xml_paths: Seq<Seq<char>>,
}

pub open spec fn profile_views(ps: Seq<Profile>) -> Seq<ProfileV> {
    ps.map_values(|p: Profile| p@)
}

impl View for Settings {
    type V = SettingsV;

    open spec fn view(&self) -> SettingsV {
        SettingsV {
            dark_mode: self.dark_mode,
            download_path: self.download_path@,
            sideload_path: self.sideload_path@,
            profiles: profile_views(self.profiles@),
            cached_xml_paths: str_views(self.cached_xml_paths@),
        }
    }
}

/// One settings change, by key.
pub struct SettingsUpdate {
    pub key: String,
    pub value: String,
}

/// The running application's version.
pub struct AppVersion {
    pub version: String,
}

impl Default for Settings {
    /// Fresh settings: system appearance, no paths, no profiles.
    fn default() -> (r: Settings)
        ensures
            r.dark_mode is System,
            r@.download_path.len() == 0,
            r@.sideload_path.len() == 0,
            r@.profiles.len() == 0,
            r@.cached_xml_paths.len() == 0,
    {
        Settings {
            dark_mode: DarkMode::System,
            download_path: String::new(),
            sideload_path: String::new(),
            profiles: Vec::new(),
            cached_xml_paths: Vec::new(),
        }
    }
}

fn clone_profile(p: &Profile) -> (r: Profile)
    ensures
        r@ == p@,
{
    Profile { name: p.name.clone(), dcs_path: p.dcs_path.clone(), repo_url: p.repo_url.clone() }
}

fn clone_profiles(ps: &Vec<Profile>) -> (r: Vec<Profile>)
    ensures
        profile_views(r@) == profile_views(ps@),
{
    let mut out: Vec<Profile> = Vec::new();
    let mut i: usize = 0;
    while i < ps.len()
        invariant
            0 <= i <= ps@.len(),
            profile_views(out@) =~= profile_views(ps@).take(i as int),
        decreases ps@.len() - i,
    {
        let ghost o0 = out@;
        out.push(clone_profile(&ps[i]));
        proof {
            assert(out@.last()@ == ps@[i as int]@);
            assert(forall|x: int| 0 <= x < o0.len() ==> out@[x] == o0[x]);
            assert(forall|x: int|
                0 <= x < o0.len() ==> profile_views(out@)[x] == profile_views(o0)[x]);
            assert(profile_views(out@).len() == o0.len() + 1);
            assert(profile_views(o0).len() == o0.len());
            assert(profile_views(out@)[o0.len() as int] == out@.last()@);
            assert(profile_views(out@) =~= profile_views(ps@).take(i as int + 1));
        }
        i = i + 1;
    }
    proof {
        assert(profile_views(ps@).take(ps@.len() as int) =~= profile_views(ps@));
    }
    out
}

/// Applies one keyed change: only the download and sideload paths can be set
/// this way; any other key is refused.
pub fn update_settings(settings: &Settings, update: &SettingsUpdate) -> (r: Result<
    Settings,
    ModError,
>)
    ensures
        update.key@ == "download_path"@ ==> (r matches Ok(s2) && s2@ == SettingsV {
            download_path: update.value@,
            ..settings@
        }),
        update.key@ != "download_path"@ && update.key@ == "sideload_path"@ ==> (r matches Ok(s2)
            && s2@ == SettingsV { sideload_path: update.value@, ..settings@ }),
        update.key@ != "download_path"@ && update.key@ != "sideload_path"@ ==> (r matches Err(e)
            && e is SettingsError),
{
    if str_eq(update.key.as_str(), "download_path") {
        let s2 = Settings {
            dark_mode: settings.dark_mode,
            download_path: update.value.clone(),
            sideload_path: settings.sideload_path.clone(),
            profiles: clone_profiles(&settings.profiles),
            cached_xml_paths: crate::fstree::clone_path(&settings.cached_xml_paths),
        };
        proof {
            assert(s2@ =~~= SettingsV { download_path: update.value@, ..settings@ });
        }
        Ok(s2)
    } else if str_eq(update.key.as_str(), "sideload_path") {
        let s2 = Settings {
            dark_mode: settings.dark_mode,
            download_path: settings.download_path.clone(),
            sideload_path: update.value.clone(),
            profiles: clone_profiles(&settings.profiles),
            cached_xml_paths: crate::fstree::clone_path(&settings.cached_xml_paths),
        };
        proof {
            assert(s2@ =~~= SettingsV { sideload_path: update.value@, ..settings@ });
        }
        Ok(s2)
    } else {
        Err(ModError::SettingsError(String::from_str("Invalid settings key")))
    }
}

/// Replaces the profile at the index, or appends it when the index is past
/// the end.
pub fn update_profile(settings: &Settings, index: usize, profile: Profile) -> (r: Settings)
    ensures
        r@.dark_mode == settings@.dark_mode,
        r@.download_path == settings@.download_path,
        r@.sideload_path == settings@.sideload_path,
        r@.cached_xml_paths == settings@.cached_xml_paths,
        index >= settings@.profiles.len() ==> r@.profiles == settings@.profiles.push(profile@),
        index < settings@.profiles.len() ==> r@.profiles == settings@.profiles.update(
            index as int,
            profile@,
        ),
{
    let mut profiles = clone_profiles(&settings.profiles);
    if index >= profiles.len() {
        let ghost p0 = profiles@;
        profiles.push(profile);
        proof {
            assert(profile_views(profiles@) =~= profile_views(p0).push(profiles@.last()@));
        }
    } else {
        let ghost p0 = profiles@;
        let _ = profiles.remove(index);
        profiles.insert(index, profile);
        proof {
            assert(profile_views(profiles@) =~= profile_views(p0).update(
                index as int,
                profiles@[index as int]@,
            ));
        }
    }
    Settings {
        dark_mode: settings.dark_mode,
        download_path: settings.download_path.clone(),
        sideload_path: settings.sideload_path.clone(),
        profiles,
        cached_xml_paths: crate::fstree::clone_path(&settings.cached_xml_paths),
    }
}

/// Removes the profile at the index; an index past the end is refused.
pub fn delete_profile(settings: &Settings, index: usize) -> (r: Result<Settings, ModError>)
    ensures
        index >= settings@.profiles.len() ==> (r matches Err(e) && e is SettingsError),
        index < settings@.profiles.len() ==> (r matches Ok(s2) && s2@ == SettingsV {
            profiles: settings@.profiles.remove(index as int),
            ..settings@
        }),
{
    if index >= settings.profiles.len() {
        return Err(ModError::SettingsError(String::from_str("Profile index out of bounds")));
    }
    let mut profiles = clone_profiles(&settings.profiles);
    let ghost p0 = profiles@;
    let _ = profiles.remove(index);
    proof {
        assert(profile_views(profiles@) =~= profile_views(p0).remove(index as int));
    }
    let s2 = Settings {
        dark_mode: settings.dark_mode,
        download_path: settings.download_path.clone(),
        sideload_path: settings.sideload_path.clone(),
        profiles,
        cached_xml_paths: crate::fstree::clone_path(&settings.cached_xml_paths),
    };
    proof {
        assert(s2@ =~~= SettingsV {
            profiles: settings@.profiles.remove(index as int),
            ..settings@
        });
    }
    Ok(s2)
}

// ----------------------------------------------------------------------------
// The catalog cache
// ----------------------------------------------------------------------------

/// What std's default hasher yields on this text.
pub uninterp spec fn default_hash_of(s: Seq<char>) -> u64;

/// Relies on std's DefaultHasher: created in its default state, it is a pure
/// function of the hashed text within one build of the program.
#[verifier::external_body]
fn url_hash(url: &str) -> (r: u64)
    ensures
        r == default_hash_of(url@),
{
    let mut hasher = std::collections::hash_map::DefaultHasher::new();
    std::hash::Hash::hash(url, &mut hasher);
    std::hash::Hasher::finish(&hasher)
}

/// Names and places the cached copies of fetched catalog files.
pub struct XmlCache;

impl XmlCache {
    /// The cache file name for a catalog URL.
    pub fn generate_cache_filename(url: &str) -> (r: String)
        ensures
            r@ == "repo_"@ + dec_digits(default_hash_of(url@) as nat) + ".xml"@,
    {
        let h = url_hash(url);
        String::from_str("repo_").concat(u64_to_string(h).as_str()).concat(".xml")
    }

    /// Where the cached catalog for a URL lives under the cache directory.
    pub fn get_cache_path(cache_dir: &str, url: &str) -> (r: String)
        ensures
            r@ == cache_dir@ + "/"@ + "repo_"@ + dec_digits(default_hash_of(url@) as nat)
                + ".xml"@,
    {
        let name = Self::generate_cache_filename(url);
        String::from_str(cache_dir).concat("/").concat(name.as_str())
    }
}

/// The first profile using this catalog URL, or the profile count.
pub open spec fn repo_profile_index(ps: Seq<ProfileV>, url: Seq<char>) -> int
    decreases ps.len(),
{
    if ps.len() == 0 {
        0
    } else if ps[0].repo_url == url {
        0
    } else {
        1 + repo_profile_index(ps.drop_first(), url)
    }
}

proof fn lemma_repo_index_at(ps: Seq<ProfileV>, url: Seq<char>, j: int)
    requires
        0 <= j <= ps.len(),
        forall|k: int| 0 <= k < j ==> (#[trigger] ps[k]).repo_url != url,
        j == ps.len() || ps[j].repo_url == url,
    ensures
        repo_profile_index(ps, url) == j,
    decreases ps.len(),
{
    if ps.len() > 0 && ps[0].repo_url != url {
        assert(j > 0);
        assert(forall|k: int|
            0 <= k < ps.drop_first().len() ==> #[trigger] ps.drop_first()[k] == ps[k + 1]);
        lemma_repo_index_at(ps.drop_first(), url, j - 1);
    }
}

/// The cache paths padded with empty entries up to the index, then set there.
pub open spec fn cache_paths_after(
    paths: Seq<Seq<char>>,
    index: int,
    path: Seq<char>,
) -> Seq<Seq<char>> {
    let padded = if paths.len() > index {
        paths
    } else {
        paths + Seq::new((index + 1 - paths.len()) as nat, |k: int| Seq::<char>::empty())
    };
    padded.update(index, path)
}

/// Records where the freshly cached catalog for this URL was written: the
/// entry at the URL's profile's index is set, growing the list with empty
/// entries as needed.  With no profile for the URL, nothing changes.
pub fn update_cache_path_in_settings(settings: &Settings, url: &str, cache_path: &str) -> (r:
    Settings)
    ensures
        repo_profile_index(settings@.profiles, url@) >= settings@.profiles.len() ==> r@
            == settings@,
        repo_profile_index(settings@.profiles, url@) < settings@.profiles.len() ==> r@ == (
        SettingsV {
            cached_xml_paths: cache_paths_after(
                settings@.cached_xml_paths,
                repo_profile_index(settings@.profiles, url@),
                cache_path@,
            ),
            ..settings@
        }),
{
    let n = settings.profiles.len();
    let mut index: Option<usize> = None;
    let mut i: usize = 0;
    while i < n
        invariant
            0 <= i <= n,
            n == settings.profiles@.len(),
            match index {
                Some(j) => j < i && profile_views(settings.profiles@)[j as int].repo_url == url@
                    && (forall|k: int|
                    0 <= k < j ==> (#[trigger] profile_views(settings.profiles@)[k]).repo_url
                        != url@),
                None => forall|k: int|
                    0 <= k < i ==> (#[trigger] profile_views(settings.profiles@)[k]).repo_url
                        != url@,
            },
        decreases n - i,
    {
        if index.is_none() && str_eq(settings.profiles[i].repo_url.as_str(), url) {
            index = Some(i);
        }
        i = i + 1;
    }
    match index {
        None => {
            proof {
                lemma_repo_index_at(settings@.profiles, url@, settings@.profiles.len() as int);
            }
            let r = Settings {
                dark_mode: settings.dark_mode,
                download_path: settings.download_path.clone(),
                sideload_path: settings.sideload_path.clone(),
                profiles: clone_profiles(&settings.profiles),
                cached_xml_paths: crate::fstree::clone_path(&settings.cached_xml_paths),
            };
            proof {
                assert(r@ =~~= settings@);
            }
            r
        },
        Some(j) => {
            proof {
                lemma_repo_index_at(settings@.profiles, url@, j as int);
            }
            let mut paths = crate::fstree::clone_path(&settings.cached_xml_paths);
            while paths.len() <= j
                invariant
                    j < settings.profiles@.len(),
                    paths@.len() <= j ==> str_views(paths@) =~= str_views(
                        settings.cached_xml_paths@,
                    ) + Seq::new(
                        (paths@.len() - settings.cached_xml_paths@.len()) as nat,
                        |k: int| Seq::<char>::empty(),
                    ),
                    paths@.len() > j ==> str_views(paths@) =~= (if settings.cached_xml_paths@.len()
                        > j {
                        str_views(settings.cached_xml_paths@)
                    } else {
                        str_views(settings.cached_xml_paths@) + Seq::new(
                            (j + 1 - settings.cached_xml_paths@.len()) as nat,
                            |k: int| Seq::<char>::empty(),
                        )
                    }),
                    paths@.len() >= settings.cached_xml_paths@.len(),
                decreases j + 1 - paths@.len(),
            {
                let ghost p0 = paths@;
                paths.push(String::new());
                proof {
                    assert(str_views(paths@) =~= str_views(p0).push(Seq::<char>::empty()));
                }
            }
            let ghost before = str_views(paths@);
            let _ = paths.remove(j);
            paths.insert(j, String::from_str(cache_path));
            proof {
                assert(str_views(paths@) =~= before.update(j as int, cache_path@));
            }
            let r = Settings {
                dark_mode: settings.dark_mode,
                download_path: settings.download_path.clone(),
                sideload_path: settings.sideload_path.clone(),
                profiles: clone_profiles(&settings.profiles),
                cached_xml_paths: paths,
            };
            proof {
                assert(r@ =~~= SettingsV {
                    cached_xml_paths: cache_paths_after(
                        settings@.cached_xml_paths,
                        j as int,
                        cache_path@,
                    ),
                    ..settings@
                });
            }
            r
        },
    }
}

} // verus!
