use vstd::prelude::*;
use crate::errors::ModError;
use crate::fstree::str_views;
use crate::ledger::plain_text;
use crate::overlay::{
    Payload, SrcEntry2V, TargetTree, Entry2V, apply_overlay, cleanup_overlay, issue_error,
    process_second_level_dirs, clone_tree, wf_payload, fresh_overlay, lemma_overlay_round_trip,
};
use crate::fstree::{unique_names, clone_path};
use crate::strutil::{trim_spec, trim_str, str_eq};

verus! {

// ----------------------------------------------------------------------------
// A mod installation and its sentinel markers
//
// A downloaded mod is a directory holding VERSION.txt, README.txt, a payload
// subdirectory named like the mod itself, and zero-byte sentinel files
// `ENABLED-<profile>.txt` / `ENABLING-<profile>.txt`, one pair per target
// profile.  ENABLED witnesses a fully applied overlay; ENABLING witnesses an
// application in progress and doubles as the mutual-exclusion flag.
// ----------------------------------------------------------------------------

/// One downloaded mod's directory, as the pipeline sees it.
pub struct ModInstallation {
    /// The directory's own name, which is the mod's name.
    pub name: String,
    /// The content of VERSION.txt, when the file is present.
    pub version_file: Option<String>,
    /// The content of README.txt, when the file is present.
    pub readme_file: Option<String>,
    /// The same-named payload subdirectory, when it is present.
    pub payload: Option<Payload>,
    /// The names of the sentinel marker files in the directory.
    pub markers: Vec<String>,
}

pub struct InstallV {
    pub name: Seq<char>,
    pub version_file: Option<Seq<char>>,
    pub readme_file: Option<Seq<char>>,
    pub payload: Option<Seq<(Seq<char>, SrcEntry2V)>>,
    pub markers: Seq<Seq<char>>,
}

impl View for ModInstallation {
    type V = InstallV;

    open spec fn view(&self) -> InstallV {
        InstallV {
            name: self.name@,
            version_file: match self.version_file {
                Some(s) => Some(s@),
                None => None,
            },
            readme_file: match self.readme_file {
                Some(s) => Some(s@),
                None => None,
            },
            payload: match self.payload {
                Some(p) => Some(p@),
                None => None,
            },
            markers: str_views(self.markers@),
        }
    }
}

/// The outcome the enablement operations report to the caller.
pub struct ModResult {
    pub success: bool,
    pub message: Option<String>,
}

// ----------------------------------------------------------------------------
// Markers
// ----------------------------------------------------------------------------

/// The sentinel file name that witnesses a fully applied overlay.
pub open spec fn enabled_marker(profile: Seq<char>) -> Seq<char> {
    "ENABLED-"@ + profile + ".txt"@
}

/// The sentinel file name that witnesses an overlay application in progress.
pub open spec fn enabling_marker(profile: Seq<char>) -> Seq<char> {
    "ENABLING-"@ + profile + ".txt"@
}

pub open spec fn has_marker(ms: Seq<Seq<char>>, name: Seq<char>) -> bool {
    exists|i: int| 0 <= i < ms.len() && ms[i] == name
}

/// The markers with the first occurrence of this name removed.
pub open spec fn remove_marker(ms: Seq<Seq<char>>, name: Seq<char>) -> Seq<Seq<char>>
    decreases ms.len(),
{
    if ms.len() == 0 {
        ms
    } else if ms[0] == name {
        ms.drop_first()
    } else {
        seq![ms[0]] + remove_marker(ms.drop_first(), name)
    }
}

pub open spec fn unique_markers(ms: Seq<Seq<char>>) -> bool {
    forall|i: int, j: int| 0 <= i < j < ms.len() ==> ms[i] != ms[j]
}

/// Adding a marker that was absent and removing it again changes nothing.
pub proof fn lemma_marker_round_trip(ms: Seq<Seq<char>>, name: Seq<char>)
    requires
        !has_marker(ms, name),
    ensures
        remove_marker(ms.push(name), name) == ms,
    decreases ms.len(),
{
    let s = ms.push(name);
    if ms.len() == 0 {
        assert(s[0] == name);
        assert(s.drop_first() =~= ms);
    } else {
        assert(s[0] == ms[0]);
        assert(ms[0] != name);
        assert(s.drop_first() =~= ms.drop_first().push(name));
        assert(!has_marker(ms.drop_first(), name)) by {
            if has_marker(ms.drop_first(), name) {
                let i = choose|i: int|
                    0 <= i < ms.drop_first().len() && ms.drop_first()[i] == name;
                assert(ms[i + 1] == name);
            }
        }
        lemma_marker_round_trip(ms.drop_first(), name);
        assert(remove_marker(s, name) =~= ms);
    }
}

/// Removal by the first occurrence acts by index.
proof fn lemma_remove_marker_at(ms: Seq<Seq<char>>, i: int)
    requires
        0 <= i < ms.len(),
        forall|k: int| 0 <= k < i ==> ms[k] != ms[i],
    ensures
        remove_marker(ms, ms[i]) == ms.remove(i),
    decreases i,
{
    if i == 0 {
        assert(remove_marker(ms, ms[0]) =~= ms.remove(0));
    } else {
        let d = ms.drop_first();
        assert(forall|k: int| 0 <= k < i - 1 ==> #[trigger] d[k] != d[i - 1]) by {
            assert(forall|k: int| 0 <= k < d.len() ==> #[trigger] d[k] == ms[k + 1]);
        }
        lemma_remove_marker_at(d, i - 1);
        assert(d[i - 1] == ms[i]);
        assert(ms[0] != ms[i]);
        assert(remove_marker(ms, ms[i]) =~= ms.remove(i)) by {
            assert(d.remove(i - 1) =~= ms.remove(i).drop_first());
            assert(ms.remove(i)[0] == ms[0]);
        }
    }
}

fn has_marker_exec(ms: &Vec<String>, name: &str) -> (r: bool)
    ensures
        r == has_marker(str_views(ms@), name@),
{
    let mut i: usize = 0;
    while i < ms.len()
        invariant
            0 <= i <= ms@.len(),
            forall|k: int| 0 <= k < i ==> str_views(ms@)[k] != name@,
        decreases ms@.len() - i,
    {
        if str_eq(ms[i].as_str(), name) {
            assert(str_views(ms@)[i as int] == name@);
            return true;
        }
        i = i + 1;
    }
    proof {
        if has_marker(str_views(ms@), name@) {
            let k = choose|k: int|
                0 <= k < str_views(ms@).len() && str_views(ms@)[k] == name@;
        }
    }
    false
}

/// The markers with the first occurrence of this name taken out, if any.
fn remove_marker_exec(ms: &Vec<String>, name: &str) -> (r: Vec<String>)
    ensures
        str_views(r@) == remove_marker(str_views(ms@), name@),
{
    let ghost mv = str_views(ms@);
    let mut idx: Option<usize> = None;
    let mut i: usize = 0;
    while i < ms.len()
        invariant
            0 <= i <= ms@.len(),
            mv == str_views(ms@),
            match idx {
                Some(j) => j < i && mv[j as int] == name@ && (forall|k: int|
                    0 <= k < j ==> mv[k] != name@),
                None => forall|k: int| 0 <= k < i ==> mv[k] != name@,
            },
        decreases ms@.len() - i,
    {
        if idx.is_none() && str_eq(ms[i].as_str(), name) {
            idx = Some(i);
        }
        i = i + 1;
    }
    match idx {
        None => {
            proof {
                lemma_remove_marker_absent(mv, name@);
            }
            clone_path(ms)
        },
        Some(j) => {
            proof {
                assert(forall|k: int| 0 <= k < j ==> mv[k] != mv[j as int]);
                lemma_remove_marker_at(mv, j as int);
            }
            let mut out: Vec<String> = Vec::new();
            let mut k: usize = 0;
            while k < ms.len()
                invariant
                    0 <= k <= ms@.len(),
                    j < ms@.len(),
                    mv == str_views(ms@),
                    str_views(out@) =~= if k <= j {
                        mv.take(k as int)
                    } else {
                        mv.remove(j as int).take(k as int - 1)
                    },
                decreases ms@.len() - k,
            {
                if k != j {
                    let ghost o0 = out@;
                    out.push(ms[k].clone());
                    proof {
                        assert(out@.last()@ == mv[k as int]);
                        assert(forall|x: int| 0 <= x < o0.len() ==> out@[x] == o0[x]);
                        assert(forall|x: int|
                            0 <= x < o0.len() ==> str_views(out@)[x] == str_views(o0)[x]);
                        assert(str_views(out@).len() == o0.len() + 1);
                        assert(str_views(out@)[o0.len() as int] == mv[k as int]);
                        assert(str_views(o0).len() == o0.len());
                        assert(o0.len() == if k <= j {
                            k as int
                        } else {
                            k as int - 1
                        });
                        if k <= j {
                            assert(str_views(out@) =~= mv.take(k as int + 1));
                        } else {
                            assert(mv.remove(j as int)[k as int - 1] == mv[k as int]);
                            assert(str_views(out@) =~= mv.remove(j as int).take(k as int));
                        }
                    }
                } else {
                    proof {
                        assert(mv.take(j as int) =~= mv.remove(j as int).take(j as int));
                    }
                }
                k = k + 1;
            }
            proof {
                assert(mv.remove(j as int).take(ms@.len() as int - 1) =~= mv.remove(j as int));
            }
            out
        },
    }
}

proof fn lemma_remove_marker_absent(ms: Seq<Seq<char>>, name: Seq<char>)
    requires
        forall|k: int| 0 <= k < ms.len() ==> ms[k] != name,
    ensures
        remove_marker(ms, name) == ms,
    decreases ms.len(),
{
    if ms.len() > 0 {
        assert(forall|k: int|
            0 <= k < ms.drop_first().len() ==> #[trigger] ms.drop_first()[k] == ms[k + 1]);
        lemma_remove_marker_absent(ms.drop_first(), name);
        assert(remove_marker(ms, name) =~= ms);
    } else {
        assert(remove_marker(ms, name) =~= ms);
    }
}

// ----------------------------------------------------------------------------
// Paths of the sentinel files, and the structure check
// ----------------------------------------------------------------------------

/// The name of the ENABLED sentinel file for a profile.
pub fn get_enabled_file_path(profile_name: &str) -> (r: String)
    ensures
        r@ == enabled_marker(profile_name@),
{
    String::from_str("ENABLED-").concat(profile_name).concat(".txt")
}

/// The name of the ENABLING sentinel file for a profile.
pub fn get_enabling_file_path(profile_name: &str) -> (r: String)
    ensures
        r@ == enabling_marker(profile_name@),
{
    String::from_str("ENABLING-").concat(profile_name).concat(".txt")
}

/// Whether the mod is enabled for this profile: its ENABLED sentinel exists.
pub fn is_mod_enabled(inst: &ModInstallation, profile_name: &str) -> (r: bool)
    ensures
        r == has_marker(inst@.markers, enabled_marker(profile_name@)),
{
    let name = get_enabled_file_path(profile_name);
    has_marker_exec(&inst.markers, name.as_str())
}

/// A mod directory has the expected shape when VERSION.txt and README.txt are
/// present and the same-named payload subdirectory exists.
pub open spec fn structure_ok(iv: InstallV) -> bool {
    iv.version_file is Some && iv.readme_file is Some && iv.payload is Some
}

/// Checks the expected mod directory shape, reporting the first missing piece.
pub fn verify_mod_structure(inst: &ModInstallation) -> (r: Result<(), ModError>)
    ensures
        r is Ok <==> structure_ok(inst@),
        r matches Err(e) ==> e is DirectoryStructureError,
{
    if inst.version_file.is_none() {
        return Err(ModError::DirectoryStructureError(String::from_str("VERSION.txt not found")));
    }
    if inst.readme_file.is_none() {
        return Err(ModError::DirectoryStructureError(String::from_str("README.txt not found")));
    }
    if inst.payload.is_none() {
        return Err(
            ModError::DirectoryStructureError(String::from_str("Main subdirectory not found")),
        );
    }
    Ok(())
}

/// The mod's version: the trimmed content of VERSION.txt.
pub fn get_mod_version(inst: &ModInstallation) -> (r: Result<String, ModError>)
    ensures
        match r {
            Ok(ver) => inst@.version_file matches Some(c) && ver@ == trim_spec(c),
            Err(e) => inst@.version_file is None && e is IoError,
        },
{
    match &inst.version_file {
        Some(c) => Ok(trim_str(c.as_str())),
        None => Err(ModError::IoError(String::from_str("VERSION.txt not found"))),
    }
}


// ----------------------------------------------------------------------------
// Enable and disable
// ----------------------------------------------------------------------------

/// Enables the mod for a profile: verifies the directory shape, treats an
/// existing ENABLED sentinel as a no-op success, refuses while ENABLING is
/// present, and otherwise projects the payload onto the target tree under the
/// ENABLING witness, placing ENABLED only after the whole projection applied.
/// A refused projection leaves the target tree and the markers as they were.
pub fn enable_mod(
    inst: ModInstallation,
    target: &TargetTree,
    profile_name: &str,
    mod_dir: &Vec<String>,
) -> (r: (ModInstallation, Result<(TargetTree, ModResult), ModError>))
    ensures
        r.0@.name == inst@.name,
        r.0@.version_file == inst@.version_file,
        r.0@.readme_file == inst@.readme_file,
        r.0@.payload == inst@.payload,
        !structure_ok(inst@) ==> (r.1 matches Err(e) && e is DirectoryStructureError && r.0@
            == inst@),
        structure_ok(inst@) && has_marker(inst@.markers, enabled_marker(profile_name@)) ==> (
        r.1 matches Ok(p) && p.0@ == target@ && p.1.success && (p.1.message matches Some(msg)
            && msg@ == "Mod already enabled"@) && r.0@ == inst@),
        structure_ok(inst@) && !has_marker(inst@.markers, enabled_marker(profile_name@))
            && has_marker(inst@.markers, enabling_marker(profile_name@)) ==> (r.1 matches Err(e)
            && e is EnablementError && r.0@ == inst@),
        structure_ok(inst@) && !has_marker(inst@.markers, enabled_marker(profile_name@))
            && !has_marker(inst@.markers, enabling_marker(profile_name@)) ==> ({
            let applied = apply_overlay(
                inst@.payload->Some_0,
                target@,
                str_views(mod_dir@).push(inst@.name),
                inst@.name,
                trim_spec(inst@.version_file->Some_0),
            );
            match r.1 {
                Ok(p) => applied == Ok::<Seq<(Seq<char>, Entry2V)>, crate::overlay::OverlayIssue>(
                    p.0@,
                ) && r.0@.markers == inst@.markers.push(enabled_marker(profile_name@))
                    && p.1.success && p.1.message is None,
                Err(e) => (applied matches Err(i) && issue_error(e, i)) && r.0@ == inst@,
            }
        }),
{
    match verify_mod_structure(&inst) {
        Err(e) => {
            return (inst, Err(e));
        },
        Ok(()) => {},
    }
    if is_mod_enabled(&inst, profile_name) {
        let res = ModResult { success: true, message: Some(String::from_str("Mod already enabled")) };
        return (inst, Ok((clone_tree(target), res)));
    }
    let enabling = get_enabling_file_path(profile_name);
    if has_marker_exec(&inst.markers, enabling.as_str()) {
        return (
            inst,
            Err(ModError::EnablementError(String::from_str("Mod is currently being enabled"))),
        );
    }
    let version = match get_mod_version(&inst) {
        Ok(v) => v,
        Err(_) => {
            proof {
                assert(false);
            }
            String::new()
        },
    };
    let ghost iv = inst@;
    let mut inst2 = inst;
    // the in-progress witness goes down first
    inst2.markers.push(enabling);
    let mut base = clone_path(mod_dir);
    base.push(inst2.name.clone());
    proof {
        assert(str_views(base@) =~= str_views(mod_dir@).push(iv.name));
    }
    let applied = match &inst2.payload {
        Some(payload) => process_second_level_dirs(
            payload,
            clone_tree(target),
            &base,
            inst2.name.as_str(),
            version.as_str(),
            false,
        ),
        None => {
            proof {
                assert(false);
            }
            Err(ModError::Cancelled)
        },
    };
    // the witness comes off again in every outcome
    let _ = inst2.markers.pop();
    proof {
        assert(str_views(inst2.markers@) =~= iv.markers);
    }
    match applied {
        Ok(t) => {
            inst2.markers.push(get_enabled_file_path(profile_name));
            proof {
                assert(str_views(inst2.markers@) =~= iv.markers.push(
                    enabled_marker(profile_name@),
                ));
            }
            (inst2, Ok((t, ModResult { success: true, message: None })))
        },
        Err(e) => {
            proof {
                assert(inst2@ =~~= iv);
            }
            (inst2, Err(e))
        },
    }
}

/// Disables the mod for a profile: an absent ENABLED sentinel is a no-op
/// success; otherwise the payload's projection is undone entry by entry in
/// reverse and the ENABLED sentinel is removed.
pub fn disable_mod(
    inst: ModInstallation,
    target: &TargetTree,
    profile_name: &str,
    mod_dir: &Vec<String>,
) -> (r: (ModInstallation, Result<(TargetTree, ModResult), ModError>))
    ensures
        r.0@.name == inst@.name,
        r.0@.version_file == inst@.version_file,
        r.0@.readme_file == inst@.readme_file,
        r.0@.payload == inst@.payload,
        !structure_ok(inst@) ==> (r.1 matches Err(e) && e is DirectoryStructureError && r.0@
            == inst@),
        structure_ok(inst@) && !has_marker(inst@.markers, enabled_marker(profile_name@)) ==> (
        r.1 matches Ok(p) && p.0@ == target@ && p.1.success && (p.1.message matches Some(msg)
            && msg@ == "Mod already disabled"@) && r.0@ == inst@),
        structure_ok(inst@) && has_marker(inst@.markers, enabled_marker(profile_name@)) ==> (
        r.1 matches Ok(p) && p.0@ == cleanup_overlay(
            inst@.payload->Some_0,
            target@,
            str_views(mod_dir@).push(inst@.name),
            inst@.name,
            trim_spec(inst@.version_file->Some_0),
        ) && r.0@.markers == remove_marker(inst@.markers, enabled_marker(profile_name@))
            && p.1.success && p.1.message is None),
{
    match verify_mod_structure(&inst) {
        Err(e) => {
            return (inst, Err(e));
        },
        Ok(()) => {},
    }
    if !is_mod_enabled(&inst, profile_name) {
        let res = ModResult {
            success: true,
            message: Some(String::from_str("Mod already disabled")),
        };
        return (inst, Ok((clone_tree(target), res)));
    }
    let version = match get_mod_version(&inst) {
        Ok(v) => v,
        Err(_) => {
            proof {
                assert(false);
            }
            String::new()
        },
    };
    let ghost iv = inst@;
    let mut inst2 = inst;
    let mut base = clone_path(mod_dir);
    base.push(inst2.name.clone());
    proof {
        assert(str_views(base@) =~= str_views(mod_dir@).push(iv.name));
    }
    let cleaned = match &inst2.payload {
        Some(payload) => process_second_level_dirs(
            payload,
            clone_tree(target),
            &base,
            inst2.name.as_str(),
            version.as_str(),
            true,
        ),
        None => {
            proof {
                assert(false);
            }
            Err(ModError::Cancelled)
        },
    };
    let t = match cleaned {
        Ok(t) => t,
        Err(_) => {
            proof {
                assert(false);
            }
            TargetTree { entries: Vec::new() }
        },
    };
    let enabled = get_enabled_file_path(profile_name);
    inst2.markers = remove_marker_exec(&inst2.markers, enabled.as_str());
    (inst2, Ok((t, ModResult { success: true, message: None })))
}

/// Updates a mod to a freshly downloaded installation.  A sideloaded mod is
/// never updated; a mod mid-enable is never updated.  An enabled mod is
/// disabled first; the downloaded installation (`new_inst`, None when the
/// download failed) takes the old one's place; a mod that was enabled is
/// re-enabled, and a failed re-enable surfaces the update as failed though
/// the new version stays downloaded.  Returns the installation and target
/// tree as they stand afterwards.
pub fn update_mod(
    inst: ModInstallation,
    target: &TargetTree,
    profile_name: &str,
    mod_dir: &Vec<String>,
    sideloaded: bool,
    new_inst: Option<ModInstallation>,
) -> (r: (ModInstallation, TargetTree, Result<ModResult, ModError>))
    ensures
        ({
            let enabled0 = has_marker(inst@.markers, enabled_marker(profile_name@));
            let enabling0 = has_marker(inst@.markers, enabling_marker(profile_name@));
            let cleaned = cleanup_overlay(
                inst@.payload->Some_0,
                target@,
                str_views(mod_dir@).push(inst@.name),
                inst@.name,
                trim_spec(inst@.version_file->Some_0),
            );
            &&& sideloaded ==> (r.2 matches Err(e) && e is EnablementError) && r.0@ == inst@
                && r.1@ == target@
            &&& !sideloaded && enabling0 ==> (r.2 matches Err(e) && e is EnablementError) && r.0@
                == inst@ && r.1@ == target@
            &&& !sideloaded && !enabling0 && !enabled0 && new_inst is None ==> (
            r.2 matches Err(e) && e is DownloadError) && r.0@ == inst@ && r.1@ == target@
            &&& !sideloaded && !enabling0 && !enabled0 && (new_inst matches Some(ni)) ==> (
            r.2 matches Ok(res) && res.success && (res.message matches Some(msg) && msg@
                == "Mod updated successfully"@)) && r.0@ == new_inst->0@ && r.1@ == target@
            &&& !sideloaded && !enabling0 && enabled0 && !structure_ok(inst@) ==> (
            r.2 matches Err(e) && e is EnablementError) && r.0@ == inst@ && r.1@ == target@
            &&& !sideloaded && !enabling0 && enabled0 && structure_ok(inst@) && new_inst is None
                ==> (r.2 matches Err(e) && e is DownloadError) && r.0@ == (InstallV {
                markers: remove_marker(inst@.markers, enabled_marker(profile_name@)),
                ..inst@
            }) && r.1@ == cleaned
            &&& !sideloaded && !enabling0 && enabled0 && structure_ok(inst@) && (
            new_inst matches Some(ni)) ==> after_reenable(
                r,
                new_inst->0,
                cleaned,
                profile_name@,
                str_views(mod_dir@),
            )
        }),
{
    let message = "Mod updated successfully";
    if sideloaded {
        return (
            inst,
            clone_tree(target),
            Err(ModError::EnablementError(String::from_str("Cannot update sideloaded mods"))),
        );
    }
    let enabling = get_enabling_file_path(profile_name);
    if has_marker_exec(&inst.markers, enabling.as_str()) {
        return (
            inst,
            clone_tree(target),
            Err(
                ModError::EnablementError(
                    String::from_str("Cannot update mod while it is being enabled"),
                ),
            ),
        );
    }
    if !is_mod_enabled(&inst, profile_name) {
        return match new_inst {
            None => (
                inst,
                clone_tree(target),
                Err(ModError::DownloadError(String::from_str("Download failed"))),
            ),
            Some(ni) => (
                ni,
                clone_tree(target),
                Ok(ModResult { success: true, message: Some(String::from_str(message)) }),
            ),
        };
    }
    // the mod is enabled: its overlay comes off before the version changes
    let (inst_d, disabled) = disable_mod(inst, target, profile_name, mod_dir);
    match disabled {
        Err(e) => {
            proof {
                assert(!structure_ok(inst@));
            }
            (inst_d, clone_tree(target), Err(ModError::EnablementError(e.message())))
        },
        Ok((t1, _)) => match new_inst {
            None => (
                inst_d,
                t1,
                Err(ModError::DownloadError(String::from_str("Download failed"))),
            ),
            Some(ni) => {
                // the new installation takes the old one's place and is
                // enabled again onto the cleaned tree
                let ghost niv = ni@;
                let (ni2, enabled_r) = enable_mod(ni, &t1, profile_name, mod_dir);
                match enabled_r {
                    Ok((t2, _)) => {
                        proof {
                            if structure_ok(niv) && !has_marker(
                                niv.markers,
                                enabled_marker(profile_name@),
                            ) && !has_marker(niv.markers, enabling_marker(profile_name@)) {
                                assert(ni2@.markers == niv.markers.push(
                                    enabled_marker(profile_name@),
                                ));
                                assert(ni2@.markers[niv.markers.len() as int] == enabled_marker(
                                    profile_name@,
                                ));
                                assert(has_marker(ni2@.markers, enabled_marker(profile_name@)));
                            }
                        }
                        (
                            ni2,
                            t2,
                            Ok(
                                ModResult {
                                    success: true,
                                    message: Some(String::from_str(message)),
                                },
                            ),
                        )
                    },
                    Err(e) => (ni2, t1, Err(ModError::EnablementError(e.message()))),
                }
            },
        },
    }
}

/// What re-enabling the freshly downloaded installation onto the cleaned
/// tree leaves behind, case by case; `enable_mod`'s contract, restated at the
/// update level.
pub open spec fn after_reenable(
    r: (ModInstallation, TargetTree, Result<ModResult, ModError>),
    ni: ModInstallation,
    cleaned: Seq<(Seq<char>, Entry2V)>,
    profile: Seq<char>,
    mod_dir: Seq<Seq<char>>,
) -> bool {
    let applied = apply_overlay(
        ni@.payload->Some_0,
        cleaned,
        mod_dir.push(ni@.name),
        ni@.name,
        trim_spec(ni@.version_file->Some_0),
    );
    &&& r.0@.name == ni@.name
    &&& r.0@.version_file == ni@.version_file
    &&& r.0@.readme_file == ni@.readme_file
    &&& r.0@.payload == ni@.payload
    &&& !structure_ok(ni@) ==> (r.2 matches Err(e) && e is EnablementError) && r.0@ == ni@
        && r.1@ == cleaned
    &&& structure_ok(ni@) && has_marker(ni@.markers, enabled_marker(profile)) ==> (
    r.2 matches Ok(res) && res.success) && r.0@ == ni@ && r.1@ == cleaned
    &&& structure_ok(ni@) && !has_marker(ni@.markers, enabled_marker(profile)) && has_marker(
        ni@.markers,
        enabling_marker(profile),
    ) ==> (r.2 matches Err(e) && e is EnablementError) && r.0@ == ni@ && r.1@ == cleaned
    &&& structure_ok(ni@) && !has_marker(ni@.markers, enabled_marker(profile)) && !has_marker(
        ni@.markers,
        enabling_marker(profile),
    ) ==> match r.2 {
        Ok(res) => applied == Ok::<Seq<(Seq<char>, Entry2V)>, crate::overlay::OverlayIssue>(r.1@)
            && r.0@.markers == ni@.markers.push(enabled_marker(profile)) && has_marker(
            r.0@.markers,
            enabled_marker(profile),
        ) && res.success && (res.message matches Some(msg) && msg@
            == "Mod updated successfully"@),
        Err(e) => e is EnablementError && r.0@ == ni@ && r.1@ == cleaned,
    }
}

/// What delete decides: a sideloaded mod is never deleted; an enabled mod is
/// disabled first, and only then is its directory removed.  The returned tree
/// is the target after any disabling; removing the directory itself is the
/// caller's I/O.
pub fn delete_mod(
    inst: ModInstallation,
    target: &TargetTree,
    profile_name: &str,
    mod_dir: &Vec<String>,
    sideloaded: bool,
) -> (r: Result<(TargetTree, ModResult), ModError>)
    ensures
        sideloaded ==> (r matches Err(e) && e is EnablementError),
        !sideloaded && !has_marker(inst@.markers, enabled_marker(profile_name@)) ==> (
        r matches Ok(p) && p.0@ == target@ && p.1.success && (p.1.message matches Some(msg)
            && msg@ == "Mod deleted successfully"@)),
        !sideloaded && has_marker(inst@.markers, enabled_marker(profile_name@)) && structure_ok(
            inst@,
        ) ==> (r matches Ok(p) && p.0@ == cleanup_overlay(
            inst@.payload->Some_0,
            target@,
            str_views(mod_dir@).push(inst@.name),
            inst@.name,
            trim_spec(inst@.version_file->Some_0),
        ) && p.1.success && (p.1.message matches Some(msg) && msg@
            == "Mod deleted successfully"@)),
        !sideloaded && has_marker(inst@.markers, enabled_marker(profile_name@)) && !structure_ok(
            inst@,
        ) ==> (r matches Err(e) && e is EnablementError),
{
    if sideloaded {
        return Err(ModError::EnablementError(String::from_str("Cannot delete sideloaded mods")));
    }
    let message = Some(String::from_str("Mod deleted successfully"));
    if !is_mod_enabled(&inst, profile_name) {
        return Ok((clone_tree(target), ModResult { success: true, message }));
    }
    let (_, disabled) = disable_mod(inst, target, profile_name, mod_dir);
    match disabled {
        Ok(p) => Ok((p.0, ModResult { success: true, message })),
        Err(e) => Err(ModError::EnablementError(e.message())),
    }
}

// ----------------------------------------------------------------------------
// The enable/disable round trip
// ----------------------------------------------------------------------------

/// Enabling a mod on a fresh target tree and then disabling it returns both
/// the tree and the installation's markers to their prior state, byte for
/// byte: the links come out, the patch blocks come out, the directories made
/// for the projection come out, and the ENABLED sentinel comes off.
pub proof fn lemma_enable_disable_round_trip(
    iv: InstallV,
    tree: Seq<(Seq<char>, Entry2V)>,
    profile: Seq<char>,
    mod_dir: Seq<Seq<char>>,
)
    requires
        structure_ok(iv),
        !has_marker(iv.markers, enabled_marker(profile)),
        wf_payload(iv.payload->Some_0),
        unique_names(tree),
        plain_text(iv.name),
        plain_text(trim_spec(iv.version_file->Some_0)),
        fresh_overlay(iv.payload->Some_0, tree, iv.name, trim_spec(iv.version_file->Some_0)),
        apply_overlay(
            iv.payload->Some_0,
            tree,
            mod_dir.push(iv.name),
            iv.name,
            trim_spec(iv.version_file->Some_0),
        ) is Ok,
    ensures
        cleanup_overlay(
            iv.payload->Some_0,
            apply_overlay(
                iv.payload->Some_0,
                tree,
                mod_dir.push(iv.name),
                iv.name,
                trim_spec(iv.version_file->Some_0),
            )->Ok_0,
            mod_dir.push(iv.name),
            iv.name,
            trim_spec(iv.version_file->Some_0),
        ) == tree,
        remove_marker(iv.markers.push(enabled_marker(profile)), enabled_marker(profile))
            == iv.markers,
{
    lemma_overlay_round_trip(
        iv.payload->Some_0,
        tree,
        mod_dir.push(iv.name),
        iv.name,
        trim_spec(iv.version_file->Some_0),
    );
    lemma_marker_round_trip(iv.markers, enabled_marker(profile));
}

} // verus!
