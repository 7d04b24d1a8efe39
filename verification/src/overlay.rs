use vstd::prelude::*;
use crate::errors::ModError;
use crate::fstree::{
    entries_view, str_views, lookup, update_entry, remove_entry, has_name, unique_names,
    find_entry, clone_path, paths_eq, lemma_ops_at_first, lemma_lookup_none,
    lemma_lookup_is_has_name, lemma_remove_appended, lemma_update_same, lemma_update_twice,
    lemma_lookup_update, lemma_lookup_push, lemma_names_ops, lemma_has_name_from_names,
};
use crate::ledger::{
    apply_spec, remove_spec, check_spec, apply_lua_patch, remove_lua_patch, blocks_clean,
    body_lines_free, plain_text, break_terminated, lemma_patch_round_trip, lemma_check_after_add,
    lemma_clean_has_no_block,
};
use crate::strutil::{trim_spec, ends_with, str_ends_with, lines_of, trim_str};

verus! {

// ----------------------------------------------------------------------------
// The two trees
//
// The overlay engine projects a mod's payload onto a target tree.  At the two
// topmost levels of the payload, directories are materialized in the target
// for real; everything below is referenced through links, so entries below
// those levels are leaves to the engine: a file it may link or patch, a
// directory it links wholesale without reading, or a link it placed earlier.
// ----------------------------------------------------------------------------

/// An entry of the target tree below the materialized levels.
pub enum DeepEntry {
    File { content: String },
    Dir,
    Link { target: Vec<String> },
}

/// An entry of the target tree at the second materialized level.
pub enum Entry3 {
    Dir { entries: Vec<(String, DeepEntry)> },
    File { content: String },
    Link { target: Vec<String> },
}

/// An entry of the target tree at the first materialized level.
pub enum Entry2 {
    Dir { entries: Vec<(String, Entry3)> },
    File { content: String },
    Link { target: Vec<String> },
}

/// The target directory tree the overlay is projected onto.
pub struct TargetTree {
    pub entries: Vec<(String, Entry2)>,
}

/// A leaf of the mod payload: a file, or a directory whose inside the engine
/// never reads because it only ever links it.
pub enum SrcLeaf {
    File { content: String },
    Dir,
}

/// A payload entry at the second level.
pub enum SrcEntry3 {
    Dir { entries: Vec<(String, SrcLeaf)> },
    File { content: String },
}

/// A payload entry at the first level.
pub enum SrcEntry2 {
    Dir { entries: Vec<(String, SrcEntry3)> },
    File { content: String },
}

/// The payload root of a mod: the mergeable tree it ships.
pub struct Payload {
    pub entries: Vec<(String, SrcEntry2)>,
}

// ----------------------------------------------------------------------------
// Views
// ----------------------------------------------------------------------------

pub enum DeepV {
    File { content: Seq<char> },
    Dir,
    Link { target: Seq<Seq<char>> },
}

pub enum Entry3V {
    Dir { entries: Seq<(Seq<char>, DeepV)> },
    File { content: Seq<char> },
    Link { target: Seq<Seq<char>> },
}

pub enum Entry2V {
    Dir { entries: Seq<(Seq<char>, Entry3V)> },
    File { content: Seq<char> },
    Link { target: Seq<Seq<char>> },
}

pub enum SrcLeafV {
    File { content: Seq<char> },
    Dir,
}

pub enum SrcEntry3V {
    Dir { entries: Seq<(Seq<char>, SrcLeafV)> },
    File { content: Seq<char> },
}

pub enum SrcEntry2V {
    Dir { entries: Seq<(Seq<char>, SrcEntry3V)> },
    File { content: Seq<char> },
}

impl View for DeepEntry {
    type V = DeepV;

    open spec fn view(&self) -> DeepV {
        match self {
            DeepEntry::File { content } => DeepV::File { content: content@ },
            DeepEntry::Dir => DeepV::Dir,
            DeepEntry::Link { target } => DeepV::Link { target: str_views(target@) },
        }
    }
}

impl View for Entry3 {
    type V = Entry3V;

    open spec fn view(&self) -> Entry3V {
        match self {
            Entry3::Dir { entries } => Entry3V::Dir { entries: entries_view(entries@) },
            Entry3::File { content } => Entry3V::File { content: content@ },
            Entry3::Link { target } => Entry3V::Link { target: str_views(target@) },
        }
    }
}

impl View for Entry2 {
    type V = Entry2V;

    open spec fn view(&self) -> Entry2V {
        match self {
            Entry2::Dir { entries } => Entry2V::Dir { entries: entries_view(entries@) },
            Entry2::File { content } => Entry2V::File { content: content@ },
            Entry2::Link { target } => Entry2V::Link { target: str_views(target@) },
        }
    }
}

impl View for TargetTree {
    type V = Seq<(Seq<char>, Entry2V)>;

    open spec fn view(&self) -> Seq<(Seq<char>, Entry2V)> {
        entries_view(self.entries@)
    }
}

impl View for SrcLeaf {
    type V = SrcLeafV;

    open spec fn view(&self) -> SrcLeafV {
        match self {
            SrcLeaf::File { content } => SrcLeafV::File { content: content@ },
            SrcLeaf::Dir => SrcLeafV::Dir,
        }
    }
}

impl View for SrcEntry3 {
    type V = SrcEntry3V;

    open spec fn view(&self) -> SrcEntry3V {
        match self {
            SrcEntry3::Dir { entries } => SrcEntry3V::Dir { entries: entries_view(entries@) },
            SrcEntry3::File { content } => SrcEntry3V::File { content: content@ },
        }
    }
}

impl View for SrcEntry2 {
    type V = SrcEntry2V;

    open spec fn view(&self) -> SrcEntry2V {
        match self {
            SrcEntry2::Dir { entries } => SrcEntry2V::Dir { entries: entries_view(entries@) },
            SrcEntry2::File { content } => SrcEntry2V::File { content: content@ },
        }
    }
}

impl View for Payload {
    type V = Seq<(Seq<char>, SrcEntry2V)>;

    open spec fn view(&self) -> Seq<(Seq<char>, SrcEntry2V)> {
        entries_view(self.entries@)
    }
}

// ----------------------------------------------------------------------------
// Well-formedness: names are unique in every directory
// ----------------------------------------------------------------------------

pub open spec fn wf_tree3(es: Seq<(Seq<char>, Entry3V)>) -> bool {
    unique_names(es) && forall|i: int|
        0 <= i < es.len() ==> match (#[trigger] es[i]).1 {
            Entry3V::Dir { entries } => unique_names(entries),
            _ => true,
        }
}

pub open spec fn wf_target(es: Seq<(Seq<char>, Entry2V)>) -> bool {
    unique_names(es) && forall|i: int|
        0 <= i < es.len() ==> match (#[trigger] es[i]).1 {
            Entry2V::Dir { entries } => wf_tree3(entries),
            _ => true,
        }
}

pub open spec fn wf_src3(es: Seq<(Seq<char>, SrcEntry3V)>) -> bool {
    unique_names(es) && forall|i: int|
        0 <= i < es.len() ==> match (#[trigger] es[i]).1 {
            SrcEntry3V::Dir { entries } => unique_names(entries),
            _ => true,
        }
}

pub open spec fn wf_payload(es: Seq<(Seq<char>, SrcEntry2V)>) -> bool {
    unique_names(es) && forall|i: int|
        0 <= i < es.len() ==> match (#[trigger] es[i]).1 {
            SrcEntry2V::Dir { entries } => wf_src3(entries),
            _ => true,
        }
}

// ----------------------------------------------------------------------------
// The engine, as specification functions
// ----------------------------------------------------------------------------

/// Why a projection is refused: a real entry stands where a link must go, or
/// a real file or link occupies a place where a directory must be made.
pub enum OverlayIssue {
    Conflict,
    Occupied,
}

/// Text-patch candidates: files with the mergeable extension.
pub open spec fn is_lua_name(name: Seq<char>) -> bool {
    name.len() >= 5 && ends_with(name, ".lua"@)
}

/// Projecting one payload leaf into a deep directory: free names get a link;
/// a link is kept when exact and repointed when stale; a same-named file is
/// merged through the patch ledger when the leaf is a text-patch file; any
/// other occupied name is a hard conflict.
pub open spec fn apply_deep_one(
    dest: Seq<(Seq<char>, DeepV)>,
    name: Seq<char>,
    leaf: SrcLeafV,
    base: Seq<Seq<char>>,
    m: Seq<char>,
    v: Seq<char>,
) -> Result<Seq<(Seq<char>, DeepV)>, OverlayIssue> {
    let tgt = base.push(name);
    match lookup(dest, name) {
        Option::None => Ok(dest.push((name, DeepV::Link { target: tgt }))),
        Option::Some(old) => match old {
            DeepV::Link { target } => if target == tgt {
                Ok(dest)
            } else {
                Ok(update_entry(dest, name, DeepV::Link { target: tgt }))
            },
            DeepV::File { content } => match leaf {
                SrcLeafV::File { content: pc } => if is_lua_name(name) {
                    Ok(
                        update_entry(
                            dest,
                            name,
                            DeepV::File { content: apply_spec(content, m, v, pc) },
                        ),
                    )
                } else {
                    Err(OverlayIssue::Conflict)
                },
                SrcLeafV::Dir => Err(OverlayIssue::Conflict),
            },
            DeepV::Dir => Err(OverlayIssue::Conflict),
        },
    }
}

pub open spec fn apply_deep(
    src: Seq<(Seq<char>, SrcLeafV)>,
    dest: Seq<(Seq<char>, DeepV)>,
    base: Seq<Seq<char>>,
    m: Seq<char>,
    v: Seq<char>,
) -> Result<Seq<(Seq<char>, DeepV)>, OverlayIssue>
    decreases src.len(),
{
    if src.len() == 0 {
        Ok(dest)
    } else {
        match apply_deep(src.drop_last(), dest, base, m, v) {
            Ok(d1) => apply_deep_one(d1, src.last().0, src.last().1, base, m, v),
            Err(e) => Err(e),
        }
    }
}

/// Undoing one payload leaf: an exact link is removed; a merged text-patch
/// file has exactly this mod's block excised and is deleted when nothing but
/// whitespace remains; everything else is left alone.
pub open spec fn cleanup_deep_one(
    dest: Seq<(Seq<char>, DeepV)>,
    name: Seq<char>,
    leaf: SrcLeafV,
    base: Seq<Seq<char>>,
    m: Seq<char>,
    v: Seq<char>,
) -> Seq<(Seq<char>, DeepV)> {
    let tgt = base.push(name);
    match lookup(dest, name) {
        Option::None => dest,
        Option::Some(old) => match old {
            DeepV::Link { target } => if target == tgt {
                remove_entry(dest, name)
            } else {
                dest
            },
            DeepV::File { content } => match leaf {
                SrcLeafV::File { content: pc } => if is_lua_name(name) {
                    let c2 = remove_spec(content, m, v);
                    if trim_spec(c2).len() == 0 {
                        remove_entry(dest, name)
                    } else {
                        update_entry(dest, name, DeepV::File { content: c2 })
                    }
                } else {
                    dest
                },
                SrcLeafV::Dir => dest,
            },
            DeepV::Dir => dest,
        },
    }
}

/// Undo walks the payload entries in reverse application order.
pub open spec fn cleanup_deep(
    src: Seq<(Seq<char>, SrcLeafV)>,
    dest: Seq<(Seq<char>, DeepV)>,
    base: Seq<Seq<char>>,
    m: Seq<char>,
    v: Seq<char>,
) -> Seq<(Seq<char>, DeepV)>
    decreases src.len(),
{
    if src.len() == 0 {
        dest
    } else {
        cleanup_deep(
            src.drop_last(),
            cleanup_deep_one(dest, src.last().0, src.last().1, base, m, v),
            base,
            m,
            v,
        )
    }
}

/// Projecting one payload entry at the second materialized level: files are
/// linked under the same rules as deep entries but never patched; for a
/// directory, a real directory is made (or reused) and the directory's
/// contents are projected as deep entries into it.
pub open spec fn apply_l3_one(
    dest: Seq<(Seq<char>, Entry3V)>,
    name: Seq<char>,
    node: SrcEntry3V,
    base: Seq<Seq<char>>,
    m: Seq<char>,
    v: Seq<char>,
) -> Result<Seq<(Seq<char>, Entry3V)>, OverlayIssue> {
    let tgt = base.push(name);
    match node {
        SrcEntry3V::File { content } => match lookup(dest, name) {
            Option::None => Ok(dest.push((name, Entry3V::Link { target: tgt }))),
            Option::Some(old) => match old {
                Entry3V::Link { target } => if target == tgt {
                    Ok(dest)
                } else {
                    Ok(update_entry(dest, name, Entry3V::Link { target: tgt }))
                },
                _ => Err(OverlayIssue::Conflict),
            },
        },
        SrcEntry3V::Dir { entries: sub } => match lookup(dest, name) {
            Option::None => match apply_deep(sub, Seq::empty(), tgt, m, v) {
                Ok(d) => Ok(dest.push((name, Entry3V::Dir { entries: d }))),
                Err(e) => Err(e),
            },
            Option::Some(old) => match old {
                Entry3V::Dir { entries: d0 } => match apply_deep(sub, d0, tgt, m, v) {
                    Ok(d) => Ok(update_entry(dest, name, Entry3V::Dir { entries: d })),
                    Err(e) => Err(e),
                },
                _ => Err(OverlayIssue::Occupied),
            },
        },
    }
}

pub open spec fn apply_l3(
    src: Seq<(Seq<char>, SrcEntry3V)>,
    dest: Seq<(Seq<char>, Entry3V)>,
    base: Seq<Seq<char>>,
    m: Seq<char>,
    v: Seq<char>,
) -> Result<Seq<(Seq<char>, Entry3V)>, OverlayIssue>
    decreases src.len(),
{
    if src.len() == 0 {
        Ok(dest)
    } else {
        match apply_l3(src.drop_last(), dest, base, m, v) {
            Ok(d1) => apply_l3_one(d1, src.last().0, src.last().1, base, m, v),
            Err(e) => Err(e),
        }
    }
}

/// Undoing one second-level payload entry; a directory that ends up empty
/// after its deep entries are undone was created by the projection and is
/// removed.
pub open spec fn cleanup_l3_one(
    dest: Seq<(Seq<char>, Entry3V)>,
    name: Seq<char>,
    node: SrcEntry3V,
    base: Seq<Seq<char>>,
    m: Seq<char>,
    v: Seq<char>,
) -> Seq<(Seq<char>, Entry3V)> {
    let tgt = base.push(name);
    match node {
        SrcEntry3V::File { content } => match lookup(dest, name) {
            Option::Some(Entry3V::Link { target }) => if target == tgt {
                remove_entry(dest, name)
            } else {
                dest
            },
            _ => dest,
        },
        SrcEntry3V::Dir { entries: sub } => match lookup(dest, name) {
            Option::Some(Entry3V::Dir { entries: d0 }) => {
                let d1 = cleanup_deep(sub, d0, tgt, m, v);
                if d1.len() == 0 {
                    remove_entry(dest, name)
                } else {
                    update_entry(dest, name, Entry3V::Dir { entries: d1 })
                }
            },
            _ => dest,
        },
    }
}

pub open spec fn cleanup_l3(
    src: Seq<(Seq<char>, SrcEntry3V)>,
    dest: Seq<(Seq<char>, Entry3V)>,
    base: Seq<Seq<char>>,
    m: Seq<char>,
    v: Seq<char>,
) -> Seq<(Seq<char>, Entry3V)>
    decreases src.len(),
{
    if src.len() == 0 {
        dest
    } else {
        cleanup_l3(
            src.drop_last(),
            cleanup_l3_one(dest, src.last().0, src.last().1, base, m, v),
            base,
            m,
            v,
        )
    }
}

/// Projecting one payload entry at the topmost level.
pub open spec fn apply_l2_one(
    dest: Seq<(Seq<char>, Entry2V)>,
    name: Seq<char>,
    node: SrcEntry2V,
    base: Seq<Seq<char>>,
    m: Seq<char>,
    v: Seq<char>,
) -> Result<Seq<(Seq<char>, Entry2V)>, OverlayIssue> {
    let tgt = base.push(name);
    match node {
        SrcEntry2V::File { content } => match lookup(dest, name) {
            Option::None => Ok(dest.push((name, Entry2V::Link { target: tgt }))),
            Option::Some(old) => match old {
                Entry2V::Link { target } => if target == tgt {
                    Ok(dest)
                } else {
                    Ok(update_entry(dest, name, Entry2V::Link { target: tgt }))
                },
                _ => Err(OverlayIssue::Conflict),
            },
        },
        SrcEntry2V::Dir { entries: sub } => match lookup(dest, name) {
            Option::None => match apply_l3(sub, Seq::empty(), tgt, m, v) {
                Ok(d) => Ok(dest.push((name, Entry2V::Dir { entries: d }))),
                Err(e) => Err(e),
            },
            Option::Some(old) => match old {
                Entry2V::Dir { entries: d0 } => match apply_l3(sub, d0, tgt, m, v) {
                    Ok(d) => Ok(update_entry(dest, name, Entry2V::Dir { entries: d })),
                    Err(e) => Err(e),
                },
                _ => Err(OverlayIssue::Occupied),
            },
        },
    }
}

/// What enabling projects onto the target tree: every payload entry applied
/// in order.
pub open spec fn apply_overlay(
    src: Seq<(Seq<char>, SrcEntry2V)>,
    dest: Seq<(Seq<char>, Entry2V)>,
    base: Seq<Seq<char>>,
    m: Seq<char>,
    v: Seq<char>,
) -> Result<Seq<(Seq<char>, Entry2V)>, OverlayIssue>
    decreases src.len(),
{
    if src.len() == 0 {
        Ok(dest)
    } else {
        match apply_overlay(src.drop_last(), dest, base, m, v) {
            Ok(d1) => apply_l2_one(d1, src.last().0, src.last().1, base, m, v),
            Err(e) => Err(e),
        }
    }
}

pub open spec fn cleanup_l2_one(
    dest: Seq<(Seq<char>, Entry2V)>,
    name: Seq<char>,
    node: SrcEntry2V,
    base: Seq<Seq<char>>,
    m: Seq<char>,
    v: Seq<char>,
) -> Seq<(Seq<char>, Entry2V)> {
    let tgt = base.push(name);
    match node {
        SrcEntry2V::File { content } => match lookup(dest, name) {
            Option::Some(Entry2V::Link { target }) => if target == tgt {
                remove_entry(dest, name)
            } else {
                dest
            },
            _ => dest,
        },
        SrcEntry2V::Dir { entries: sub } => match lookup(dest, name) {
            Option::Some(Entry2V::Dir { entries: d0 }) => {
                let d1 = cleanup_l3(sub, d0, tgt, m, v);
                if d1.len() == 0 {
                    remove_entry(dest, name)
                } else {
                    update_entry(dest, name, Entry2V::Dir { entries: d1 })
                }
            },
            _ => dest,
        },
    }
}

/// What disabling removes from the target tree: the payload entries undone in
/// reverse application order.
pub open spec fn cleanup_overlay(
    src: Seq<(Seq<char>, SrcEntry2V)>,
    dest: Seq<(Seq<char>, Entry2V)>,
    base: Seq<Seq<char>>,
    m: Seq<char>,
    v: Seq<char>,
) -> Seq<(Seq<char>, Entry2V)>
    decreases src.len(),
{
    if src.len() == 0 {
        dest
    } else {
        cleanup_overlay(
            src.drop_last(),
            cleanup_l2_one(dest, src.last().0, src.last().1, base, m, v),
            base,
            m,
            v,
        )
    }
}

// ----------------------------------------------------------------------------
// The engine, executable
// ----------------------------------------------------------------------------

/// Whether the error variant reports the issue the specification names.
pub open spec fn issue_error(e: ModError, i: OverlayIssue) -> bool {
    match i {
        OverlayIssue::Conflict => e is FileConflictError,
        OverlayIssue::Occupied => e is IoError,
    }
}

/// A failed prefix fails the whole projection with the same issue.
proof fn lemma_apply_deep_err(
    src: Seq<(Seq<char>, SrcLeafV)>,
    dest: Seq<(Seq<char>, DeepV)>,
    base: Seq<Seq<char>>,
    m: Seq<char>,
    v: Seq<char>,
    k: int,
)
    requires
        0 <= k <= src.len(),
        apply_deep(src.take(k), dest, base, m, v) is Err,
    ensures
        apply_deep(src, dest, base, m, v) == apply_deep(src.take(k), dest, base, m, v),
    decreases src.len() - k,
{
    if k < src.len() {
        assert(src.take(k + 1).drop_last() =~= src.take(k));
        lemma_apply_deep_err(src, dest, base, m, v, k + 1);
    } else {
        assert(src.take(k) =~= src);
    }
}

fn is_lua_file(name: &str) -> (r: bool)
    ensures
        r == is_lua_name(name@),
{
    name.unicode_len() >= 5 && str_ends_with(name, ".lua")
}

fn link_target(base: &Vec<String>, name: &String) -> (r: Vec<String>)
    ensures
        str_views(r@) == str_views(base@).push(name@),
{
    let mut t = clone_path(base);
    t.push(name.clone());
    proof {
        assert(str_views(t@) =~= str_views(base@).push(name@));
    }
    t
}

fn apply_deep_exec(
    src: &Vec<(String, SrcLeaf)>,
    dest: Vec<(String, DeepEntry)>,
    base: &Vec<String>,
    mod_name: &str,
    version: &str,
) -> (r: Result<Vec<(String, DeepEntry)>, ModError>)
    ensures
        match r {
            Ok(d) => apply_deep(
                entries_view(src@),
                entries_view(dest@),
                str_views(base@),
                mod_name@,
                version@,
            ) == Ok::<Seq<(Seq<char>, DeepV)>, OverlayIssue>(entries_view(d@)),
            Err(e) => apply_deep(
                entries_view(src@),
                entries_view(dest@),
                str_views(base@),
                mod_name@,
                version@,
            ) matches Err(i) && issue_error(e, i),
        },
{
    let ghost srcv = entries_view(src@);
    let ghost dv0 = entries_view(dest@);
    let ghost bv = str_views(base@);
    let mut cur = dest;
    let n = src.len();
    let mut i: usize = 0;
    proof {
        assert(srcv.take(0) =~= Seq::<(Seq<char>, SrcLeafV)>::empty());
    }
    while i < n
        invariant
            0 <= i <= n,
            n == src@.len(),
            srcv == entries_view(src@),
            dv0 == entries_view(dest@),
            bv == str_views(base@),
            apply_deep(srcv.take(i as int), dv0, bv, mod_name@, version@) == Ok::<
                Seq<(Seq<char>, DeepV)>,
                OverlayIssue,
            >(entries_view(cur@)),
        decreases n - i,
    {
        let ghost dv = entries_view(cur@);
        let name = &src[i].0;
        proof {
            assert(srcv[i as int] == (src@[i as int].0@, src@[i as int].1@));
            assert(srcv.take(i as int + 1).drop_last() =~= srcv.take(i as int));
            assert(srcv.take(i as int + 1).last() == srcv[i as int]);
        }
        let ghost step = apply_deep_one(dv, name@, src@[i as int].1@, bv, mod_name@, version@);
        proof {
            assert(apply_deep(srcv.take(i as int + 1), dv0, bv, mod_name@, version@) == step);
        }
        let tgt = link_target(base, name);
        match find_entry(&cur, name.as_str()) {
            None => {
                proof {
                    assert(forall|k: int| 0 <= k < dv.len() ==> (#[trigger] dv[k]).0 == cur@[k].0@);
                    lemma_lookup_none(dv, name@);
                }
                let entry = DeepEntry::Link { target: tgt };
                cur.push((name.clone(), entry));
                proof {
                    assert(entries_view(cur@) =~= dv.push((name@, DeepV::Link {
                        target: bv.push(name@),
                    })));
                }
            },
            Some(j) => {
                proof {
                    assert(forall|k: int| 0 <= k < dv.len() ==> (#[trigger] dv[k]).0 == cur@[k].0@);
                    assert(dv[j as int].0 == name@);
                    lemma_ops_at_first(dv, j as int, dv[j as int].1);
                    assert(lookup(dv, name@) == Some(dv[j as int].1));
                }
                let old_pair = cur.remove(j);
                let old_entry = old_pair.1;
                let ghost oldv = old_entry@;
                proof {
                    assert(oldv == dv[j as int].1);
                }
                match old_entry {
                    DeepEntry::Link { target } => {
                        if paths_eq(&target, &tgt) {
                            // exact link already in place: keep it
                            cur.insert(j, (name.clone(), DeepEntry::Link { target }));
                            proof {
                                assert(entries_view(cur@) =~= dv);
                            }
                        } else {
                            // stale link: repoint it
                            cur.insert(j, (name.clone(), DeepEntry::Link { target: tgt }));
                            proof {
                                lemma_ops_at_first(
                                    dv,
                                    j as int,
                                    DeepV::Link { target: bv.push(name@) },
                                );
                                assert(entries_view(cur@) =~= update_entry(
                                    dv,
                                    name@,
                                    DeepV::Link { target: bv.push(name@) },
                                ));
                            }
                        }
                    },
                    DeepEntry::File { content } => {
                        let is_patch = match &src[i].1 {
                            SrcLeaf::File { content: _ } => is_lua_file(name.as_str()),
                            SrcLeaf::Dir => false,
                        };
                        if is_patch {
                            let patched = match &src[i].1 {
                                SrcLeaf::File { content: pc } => apply_lua_patch(
                                    content.as_str(),
                                    mod_name,
                                    version,
                                    pc.as_str(),
                                ),
                                SrcLeaf::Dir => String::new(),
                            };
                            cur.insert(j, (name.clone(), DeepEntry::File { content: patched }));
                            proof {
                                let newv = DeepV::File {
                                    content: apply_spec(content@, mod_name@, version@, (
                                    src@[i as int].1@)->File_content),
                                };
                                lemma_ops_at_first(dv, j as int, newv);
                                assert(entries_view(cur@) =~= update_entry(dv, name@, newv));
                            }
                        } else {
                            proof {
                                lemma_apply_deep_err(srcv, dv0, bv, mod_name@, version@, i as int
                                    + 1);
                            }
                            return Err(
                                ModError::FileConflictError(
                                    name.clone().concat(" already exists"),
                                ),
                            );
                        }
                    },
                    DeepEntry::Dir => {
                        proof {
                            lemma_apply_deep_err(srcv, dv0, bv, mod_name@, version@, i as int + 1);
                        }
                        return Err(
                            ModError::FileConflictError(name.clone().concat(" already exists")),
                        );
                    },
                }
            },
        }
        i = i + 1;
    }
    proof {
        assert(srcv.take(n as int) =~= srcv);
    }
    Ok(cur)
}

fn cleanup_deep_exec(
    src: &Vec<(String, SrcLeaf)>,
    dest: Vec<(String, DeepEntry)>,
    base: &Vec<String>,
    mod_name: &str,
    version: &str,
) -> (r: Vec<(String, DeepEntry)>)
    ensures
        entries_view(r@) == cleanup_deep(
            entries_view(src@),
            entries_view(dest@),
            str_views(base@),
            mod_name@,
            version@,
        ),
{
    let ghost srcv = entries_view(src@);
    let ghost dv0 = entries_view(dest@);
    let ghost bv = str_views(base@);
    let mut cur = dest;
    let n = src.len();
    let mut i: usize = n;
    proof {
        assert(srcv.take(n as int) =~= srcv);
    }
    while i > 0
        invariant
            0 <= i <= n,
            n == src@.len(),
            srcv == entries_view(src@),
            bv == str_views(base@),
            cleanup_deep(srcv, dv0, bv, mod_name@, version@) == cleanup_deep(
                srcv.take(i as int),
                entries_view(cur@),
                bv,
                mod_name@,
                version@,
            ),
        decreases i,
    {
        let ghost dv = entries_view(cur@);
        i = i - 1;
        let name = &src[i].0;
        proof {
            assert(srcv[i as int] == (src@[i as int].0@, src@[i as int].1@));
            assert(srcv.take(i as int + 1).drop_last() =~= srcv.take(i as int));
            assert(srcv.take(i as int + 1).last() == srcv[i as int]);
        }
        let ghost step = cleanup_deep_one(dv, name@, src@[i as int].1@, bv, mod_name@, version@);
        let tgt = link_target(base, name);
        match find_entry(&cur, name.as_str()) {
            None => {
                proof {
                    assert(forall|k: int| 0 <= k < dv.len() ==> (#[trigger] dv[k]).0 == cur@[k].0@);
                    lemma_lookup_none(dv, name@);
                    assert(step == dv);
                }
            },
            Some(j) => {
                proof {
                    assert(forall|k: int| 0 <= k < dv.len() ==> (#[trigger] dv[k]).0 == cur@[k].0@);
                    assert(dv[j as int].0 == name@);
                    lemma_ops_at_first(dv, j as int, dv[j as int].1);
                    assert(lookup(dv, name@) == Some(dv[j as int].1));
                }
                let old_pair = cur.remove(j);
                let old_entry = old_pair.1;
                match old_entry {
                    DeepEntry::Link { target } => {
                        if paths_eq(&target, &tgt) {
                            // the link this mod placed: take it out
                            proof {
                                assert(step == remove_entry(dv, name@));
                                assert(entries_view(cur@) =~= dv.remove(j as int));
                            }
                        } else {
                            // someone else's link now: leave it
                            cur.insert(j, (name.clone(), DeepEntry::Link { target }));
                            proof {
                                assert(step == dv);
                                assert(entries_view(cur@) =~= dv);
                            }
                        }
                    },
                    DeepEntry::File { content } => {
                        let is_patch = match &src[i].1 {
                            SrcLeaf::File { content: _ } => is_lua_file(name.as_str()),
                            SrcLeaf::Dir => false,
                        };
                        if is_patch {
                            let c2 = match remove_lua_patch(content.as_str(), mod_name, version) {
                                Ok(c) => c,
                                Err(_) => {
                                    proof {
                                        assert(false);
                                    }
                                    String::new()
                                },
                            };
                            let t = trim_str(c2.as_str());
                            if t.unicode_len() == 0 {
                                // nothing but this mod's block was in it: delete the file
                                proof {
                                    assert(step == remove_entry(dv, name@));
                                    assert(entries_view(cur@) =~= dv.remove(j as int));
                                }
                            } else {
                                cur.insert(j, (name.clone(), DeepEntry::File { content: c2 }));
                                proof {
                                    let newv = DeepV::File {
                                        content: remove_spec(content@, mod_name@, version@),
                                    };
                                    lemma_ops_at_first(dv, j as int, newv);
                                    assert(step == update_entry(dv, name@, newv));
                                    assert(entries_view(cur@) =~= update_entry(dv, name@, newv));
                                }
                            }
                        } else {
                            cur.insert(j, (name.clone(), DeepEntry::File { content }));
                            proof {
                                assert(step == dv);
                                assert(entries_view(cur@) =~= dv);
                            }
                        }
                    },
                    DeepEntry::Dir => {
                        cur.insert(j, (name.clone(), DeepEntry::Dir));
                        proof {
                            assert(step == dv);
                            assert(entries_view(cur@) =~= dv);
                        }
                    },
                }
            },
        }
    }
    proof {
        assert(srcv.take(0) =~= Seq::<(Seq<char>, SrcLeafV)>::empty());
    }
    cur
}

proof fn lemma_apply_l3_err(
    src: Seq<(Seq<char>, SrcEntry3V)>,
    dest: Seq<(Seq<char>, Entry3V)>,
    base: Seq<Seq<char>>,
    m: Seq<char>,
    v: Seq<char>,
    k: int,
)
    requires
        0 <= k <= src.len(),
        apply_l3(src.take(k), dest, base, m, v) is Err,
    ensures
        apply_l3(src, dest, base, m, v) == apply_l3(src.take(k), dest, base, m, v),
    decreases src.len() - k,
{
    if k < src.len() {
        assert(src.take(k + 1).drop_last() =~= src.take(k));
        lemma_apply_l3_err(src, dest, base, m, v, k + 1);
    } else {
        assert(src.take(k) =~= src);
    }
}

fn apply_l3_exec(
    src: &Vec<(String, SrcEntry3)>,
    dest: Vec<(String, Entry3)>,
    base: &Vec<String>,
    mod_name: &str,
    version: &str,
) -> (r: Result<Vec<(String, Entry3)>, ModError>)
    ensures
        match r {
            Ok(d) => apply_l3(
                entries_view(src@),
                entries_view(dest@),
                str_views(base@),
                mod_name@,
                version@,
            ) == Ok::<Seq<(Seq<char>, Entry3V)>, OverlayIssue>(entries_view(d@)),
            Err(e) => apply_l3(
                entries_view(src@),
                entries_view(dest@),
                str_views(base@),
                mod_name@,
                version@,
            ) matches Err(i) && issue_error(e, i),
        },
{
    let ghost srcv = entries_view(src@);
    let ghost dv0 = entries_view(dest@);
    let ghost bv = str_views(base@);
    let mut cur = dest;
    let n = src.len();
    let mut i: usize = 0;
    proof {
        assert(srcv.take(0) =~= Seq::<(Seq<char>, SrcEntry3V)>::empty());
    }
    while i < n
        invariant
            0 <= i <= n,
            n == src@.len(),
            srcv == entries_view(src@),
            dv0 == entries_view(dest@),
            bv == str_views(base@),
            apply_l3(srcv.take(i as int), dv0, bv, mod_name@, version@) == Ok::<
                Seq<(Seq<char>, Entry3V)>,
                OverlayIssue,
            >(entries_view(cur@)),
        decreases n - i,
    {
        let ghost dv = entries_view(cur@);
        let name = &src[i].0;
        proof {
            assert(srcv[i as int] == (src@[i as int].0@, src@[i as int].1@));
            assert(srcv.take(i as int + 1).drop_last() =~= srcv.take(i as int));
            assert(srcv.take(i as int + 1).last() == srcv[i as int]);
        }
        let ghost step = apply_l3_one(dv, name@, src@[i as int].1@, bv, mod_name@, version@);
        proof {
            assert(apply_l3(srcv.take(i as int + 1), dv0, bv, mod_name@, version@) == step);
        }
        let tgt = link_target(base, name);
        let found = find_entry(&cur, name.as_str());
        proof {
            assert(forall|k: int| 0 <= k < dv.len() ==> (#[trigger] dv[k]).0 == cur@[k].0@);
            if found is None {
                lemma_lookup_none(dv, name@);
            } else {
                let j = found->0;
                assert(dv[j as int].0 == name@);
                lemma_ops_at_first(dv, j as int, dv[j as int].1);
            }
        }
        match &src[i].1 {
            SrcEntry3::File { content: _ } => {
                match found {
                    None => {
                        cur.push((name.clone(), Entry3::Link { target: tgt }));
                        proof {
                            assert(entries_view(cur@) =~= dv.push((name@, Entry3V::Link {
                                target: bv.push(name@),
                            })));
                        }
                    },
                    Some(j) => {
                        let old_pair = cur.remove(j);
                        match old_pair.1 {
                            Entry3::Link { target } => {
                                if paths_eq(&target, &tgt) {
                                    cur.insert(j, (name.clone(), Entry3::Link { target }));
                                    proof {
                                        assert(entries_view(cur@) =~= dv);
                                    }
                                } else {
                                    cur.insert(j, (name.clone(), Entry3::Link { target: tgt }));
                                    proof {
                                        lemma_ops_at_first(dv, j as int, Entry3V::Link {
                                            target: bv.push(name@),
                                        });
                                        assert(entries_view(cur@) =~= update_entry(
                                            dv,
                                            name@,
                                            Entry3V::Link { target: bv.push(name@) },
                                        ));
                                    }
                                }
                            },
                            _ => {
                                proof {
                                    lemma_apply_l3_err(srcv, dv0, bv, mod_name@, version@, i as int
                                        + 1);
                                }
                                return Err(
                                    ModError::FileConflictError(
                                        name.clone().concat(" already exists"),
                                    ),
                                );
                            },
                        }
                    },
                }
            },
            SrcEntry3::Dir { entries: sub } => {
                match found {
                    None => {
                        let fresh: Vec<(String, DeepEntry)> = Vec::new();
                        proof {
                            assert(entries_view(fresh@) =~= Seq::<(Seq<char>, DeepV)>::empty());
                        }
                        match apply_deep_exec(sub, fresh, &tgt, mod_name, version) {
                            Ok(d) => {
                                cur.push((name.clone(), Entry3::Dir { entries: d }));
                                proof {
                                    assert(entries_view(cur@) =~= dv.push((name@, Entry3V::Dir {
                                        entries: entries_view(d@),
                                    })));
                                }
                            },
                            Err(e) => {
                                proof {
                                    lemma_apply_l3_err(srcv, dv0, bv, mod_name@, version@, i as int
                                        + 1);
                                }
                                return Err(e);
                            },
                        }
                    },
                    Some(j) => {
                        let old_pair = cur.remove(j);
                        match old_pair.1 {
                            Entry3::Dir { entries } => {
                                match apply_deep_exec(sub, entries, &tgt, mod_name, version) {
                                    Ok(d) => {
                                        let ghost newv = Entry3V::Dir {
                                            entries: entries_view(d@),
                                        };
                                        cur.insert(j, (name.clone(), Entry3::Dir { entries: d }));
                                        proof {
                                            lemma_ops_at_first(dv, j as int, newv);
                                            assert(entries_view(cur@) =~= update_entry(
                                                dv,
                                                name@,
                                                newv,
                                            ));
                                        }
                                    },
                                    Err(e) => {
                                        proof {
                                            lemma_apply_l3_err(
                                                srcv,
                                                dv0,
                                                bv,
                                                mod_name@,
                                                version@,
                                                i as int + 1,
                                            );
                                        }
                                        return Err(e);
                                    },
                                }
                            },
                            _ => {
                                proof {
                                    lemma_apply_l3_err(srcv, dv0, bv, mod_name@, version@, i as int
                                        + 1);
                                }
                                return Err(
                                    ModError::IoError(
                                        name.clone().concat(" cannot be made a directory"),
                                    ),
                                );
                            },
                        }
                    },
                }
            },
        }
        i = i + 1;
    }
    proof {
        assert(srcv.take(n as int) =~= srcv);
    }
    Ok(cur)
}

fn cleanup_l3_exec(
    src: &Vec<(String, SrcEntry3)>,
    dest: Vec<(String, Entry3)>,
    base: &Vec<String>,
    mod_name: &str,
    version: &str,
) -> (r: Vec<(String, Entry3)>)
    ensures
        entries_view(r@) == cleanup_l3(
            entries_view(src@),
            entries_view(dest@),
            str_views(base@),
            mod_name@,
            version@,
        ),
{
    let ghost srcv = entries_view(src@);
    let ghost dv0 = entries_view(dest@);
    let ghost bv = str_views(base@);
    let mut cur = dest;
    let n = src.len();
    let mut i: usize = n;
    proof {
        assert(srcv.take(n as int) =~= srcv);
    }
    while i > 0
        invariant
            0 <= i <= n,
            n == src@.len(),
            srcv == entries_view(src@),
            bv == str_views(base@),
            cleanup_l3(srcv, dv0, bv, mod_name@, version@) == cleanup_l3(
                srcv.take(i as int),
                entries_view(cur@),
                bv,
                mod_name@,
                version@,
            ),
        decreases i,
    {
        let ghost dv = entries_view(cur@);
        i = i - 1;
        let name = &src[i].0;
        proof {
            assert(srcv[i as int] == (src@[i as int].0@, src@[i as int].1@));
            assert(srcv.take(i as int + 1).drop_last() =~= srcv.take(i as int));
            assert(srcv.take(i as int + 1).last() == srcv[i as int]);
        }
        let ghost step = cleanup_l3_one(dv, name@, src@[i as int].1@, bv, mod_name@, version@);
        let tgt = link_target(base, name);
        let found = find_entry(&cur, name.as_str());
        proof {
            assert(forall|k: int| 0 <= k < dv.len() ==> (#[trigger] dv[k]).0 == cur@[k].0@);
            if found is None {
                lemma_lookup_none(dv, name@);
            } else {
                let j = found->0;
                assert(dv[j as int].0 == name@);
                lemma_ops_at_first(dv, j as int, dv[j as int].1);
            }
        }
        match &src[i].1 {
            SrcEntry3::File { content: _ } => {
                match found {
                    None => {
                        proof {
                            assert(step == dv);
                        }
                    },
                    Some(j) => {
                        let old_pair = cur.remove(j);
                        match old_pair.1 {
                            Entry3::Link { target } => {
                                if paths_eq(&target, &tgt) {
                                    proof {
                                        assert(step == remove_entry(dv, name@));
                                        assert(entries_view(cur@) =~= dv.remove(j as int));
                                    }
                                } else {
                                    cur.insert(j, (name.clone(), Entry3::Link { target }));
                                    proof {
                                        assert(step == dv);
                                        assert(entries_view(cur@) =~= dv);
                                    }
                                }
                            },
                            Entry3::File { content } => {
                                cur.insert(j, (name.clone(), Entry3::File { content }));
                                proof {
                                    assert(step == dv);
                                    assert(entries_view(cur@) =~= dv);
                                }
                            },
                            Entry3::Dir { entries } => {
                                cur.insert(j, (name.clone(), Entry3::Dir { entries }));
                                proof {
                                    assert(step == dv);
                                    assert(entries_view(cur@) =~= dv);
                                }
                            },
                        }
                    },
                }
            },
            SrcEntry3::Dir { entries: sub } => {
                match found {
                    None => {
                        proof {
                            assert(step == dv);
                        }
                    },
                    Some(j) => {
                        let old_pair = cur.remove(j);
                        match old_pair.1 {
                            Entry3::Dir { entries } => {
                                let d1 = cleanup_deep_exec(sub, entries, &tgt, mod_name, version);
                                if d1.len() == 0 {
                                    proof {
                                        assert(entries_view(d1@) =~= Seq::<
                                            (Seq<char>, DeepV),
                                        >::empty());
                                        assert(step == remove_entry(dv, name@));
                                        assert(entries_view(cur@) =~= dv.remove(j as int));
                                    }
                                } else {
                                    let ghost newv = Entry3V::Dir { entries: entries_view(d1@) };
                                    cur.insert(j, (name.clone(), Entry3::Dir { entries: d1 }));
                                    proof {
                                        lemma_ops_at_first(dv, j as int, newv);
                                        assert(entries_view(d1@).len() > 0);
                                        assert(step == update_entry(dv, name@, newv));
                                        assert(entries_view(cur@) =~= update_entry(
                                            dv,
                                            name@,
                                            newv,
                                        ));
                                    }
                                }
                            },
                            Entry3::File { content } => {
                                cur.insert(j, (name.clone(), Entry3::File { content }));
                                proof {
                                    assert(step == dv);
                                    assert(entries_view(cur@) =~= dv);
                                }
                            },
                            Entry3::Link { target } => {
                                cur.insert(j, (name.clone(), Entry3::Link { target }));
                                proof {
                                    assert(step == dv);
                                    assert(entries_view(cur@) =~= dv);
                                }
                            },
                        }
                    },
                }
            },
        }
    }
    proof {
        assert(srcv.take(0) =~= Seq::<(Seq<char>, SrcEntry3V)>::empty());
    }
    cur
}

proof fn lemma_apply_l2_err(
    src: Seq<(Seq<char>, SrcEntry2V)>,
    dest: Seq<(Seq<char>, Entry2V)>,
    base: Seq<Seq<char>>,
    m: Seq<char>,
    v: Seq<char>,
    k: int,
)
    requires
        0 <= k <= src.len(),
        apply_overlay(src.take(k), dest, base, m, v) is Err,
    ensures
        apply_overlay(src, dest, base, m, v) == apply_overlay(src.take(k), dest, base, m, v),
    decreases src.len() - k,
{
    if k < src.len() {
        assert(src.take(k + 1).drop_last() =~= src.take(k));
        lemma_apply_l2_err(src, dest, base, m, v, k + 1);
    } else {
        assert(src.take(k) =~= src);
    }
}

fn apply_l2_exec(
    src: &Vec<(String, SrcEntry2)>,
    dest: Vec<(String, Entry2)>,
    base: &Vec<String>,
    mod_name: &str,
    version: &str,
) -> (r: Result<Vec<(String, Entry2)>, ModError>)
    ensures
        match r {
            Ok(d) => apply_overlay(
                entries_view(src@),
                entries_view(dest@),
                str_views(base@),
                mod_name@,
                version@,
            ) == Ok::<Seq<(Seq<char>, Entry2V)>, OverlayIssue>(entries_view(d@)),
            Err(e) => apply_overlay(
                entries_view(src@),
                entries_view(dest@),
                str_views(base@),
                mod_name@,
                version@,
            ) matches Err(i) && issue_error(e, i),
        },
{
    let ghost srcv = entries_view(src@);
    let ghost dv0 = entries_view(dest@);
    let ghost bv = str_views(base@);
    let mut cur = dest;
    let n = src.len();
    let mut i: usize = 0;
    proof {
        assert(srcv.take(0) =~= Seq::<(Seq<char>, SrcEntry2V)>::empty());
    }
    while i < n
        invariant
            0 <= i <= n,
            n == src@.len(),
            srcv == entries_view(src@),
            dv0 == entries_view(dest@),
            bv == str_views(base@),
            apply_overlay(srcv.take(i as int), dv0, bv, mod_name@, version@) == Ok::<
                Seq<(Seq<char>, Entry2V)>,
                OverlayIssue,
            >(entries_view(cur@)),
        decreases n - i,
    {
        let ghost dv = entries_view(cur@);
        let name = &src[i].0;
        proof {
            assert(srcv[i as int] == (src@[i as int].0@, src@[i as int].1@));
            assert(srcv.take(i as int + 1).drop_last() =~= srcv.take(i as int));
            assert(srcv.take(i as int + 1).last() == srcv[i as int]);
        }
        let ghost step = apply_l2_one(dv, name@, src@[i as int].1@, bv, mod_name@, version@);
        proof {
            assert(apply_overlay(srcv.take(i as int + 1), dv0, bv, mod_name@, version@) == step);
        }
        let tgt = link_target(base, name);
        let found = find_entry(&cur, name.as_str());
        proof {
            assert(forall|k: int| 0 <= k < dv.len() ==> (#[trigger] dv[k]).0 == cur@[k].0@);
            if found is None {
                lemma_lookup_none(dv, name@);
            } else {
                let j = found->0;
                assert(dv[j as int].0 == name@);
                lemma_ops_at_first(dv, j as int, dv[j as int].1);
            }
        }
        match &src[i].1 {
            SrcEntry2::File { content: _ } => {
                match found {
                    None => {
                        cur.push((name.clone(), Entry2::Link { target: tgt }));
                        proof {
                            assert(entries_view(cur@) =~= dv.push((name@, Entry2V::Link {
                                target: bv.push(name@),
                            })));
                        }
                    },
                    Some(j) => {
                        let old_pair = cur.remove(j);
                        match old_pair.1 {
                            Entry2::Link { target } => {
                                if paths_eq(&target, &tgt) {
                                    cur.insert(j, (name.clone(), Entry2::Link { target }));
                                    proof {
                                        assert(entries_view(cur@) =~= dv);
                                    }
                                } else {
                                    cur.insert(j, (name.clone(), Entry2::Link { target: tgt }));
                                    proof {
                                        lemma_ops_at_first(dv, j as int, Entry2V::Link {
                                            target: bv.push(name@),
                                        });
                                        assert(entries_view(cur@) =~= update_entry(
                                            dv,
                                            name@,
                                            Entry2V::Link { target: bv.push(name@) },
                                        ));
                                    }
                                }
                            },
                            _ => {
                                proof {
                                    lemma_apply_l2_err(srcv, dv0, bv, mod_name@, version@, i as int
                                        + 1);
                                }
                                return Err(
                                    ModError::FileConflictError(
                                        name.clone().concat(" already exists"),
                                    ),
                                );
                            },
                        }
                    },
                }
            },
            SrcEntry2::Dir { entries: sub } => {
                match found {
                    None => {
                        let fresh: Vec<(String, Entry3)> = Vec::new();
                        proof {
                            assert(entries_view(fresh@) =~= Seq::<(Seq<char>, Entry3V)>::empty());
                        }
                        match apply_l3_exec(sub, fresh, &tgt, mod_name, version) {
                            Ok(d) => {
                                cur.push((name.clone(), Entry2::Dir { entries: d }));
                                proof {
                                    assert(entries_view(cur@) =~= dv.push((name@, Entry2V::Dir {
                                        entries: entries_view(d@),
                                    })));
                                }
                            },
                            Err(e) => {
                                proof {
                                    lemma_apply_l2_err(srcv, dv0, bv, mod_name@, version@, i as int
                                        + 1);
                                }
                                return Err(e);
                            },
                        }
                    },
                    Some(j) => {
                        let old_pair = cur.remove(j);
                        match old_pair.1 {
                            Entry2::Dir { entries } => {
                                match apply_l3_exec(sub, entries, &tgt, mod_name, version) {
                                    Ok(d) => {
                                        let ghost newv = Entry2V::Dir {
                                            entries: entries_view(d@),
                                        };
                                        cur.insert(j, (name.clone(), Entry2::Dir { entries: d }));
                                        proof {
                                            lemma_ops_at_first(dv, j as int, newv);
                                            assert(entries_view(cur@) =~= update_entry(
                                                dv,
                                                name@,
                                                newv,
                                            ));
                                        }
                                    },
                                    Err(e) => {
                                        proof {
                                            lemma_apply_l2_err(
                                                srcv,
                                                dv0,
                                                bv,
                                                mod_name@,
                                                version@,
                                                i as int + 1,
                                            );
                                        }
                                        return Err(e);
                                    },
                                }
                            },
                            _ => {
                                proof {
                                    lemma_apply_l2_err(srcv, dv0, bv, mod_name@, version@, i as int
                                        + 1);
                                }
                                return Err(
                                    ModError::IoError(
                                        name.clone().concat(" cannot be made a directory"),
                                    ),
                                );
                            },
                        }
                    },
                }
            },
        }
        i = i + 1;
    }
    proof {
        assert(srcv.take(n as int) =~= srcv);
    }
    Ok(cur)
}

fn cleanup_l2_exec(
    src: &Vec<(String, SrcEntry2)>,
    dest: Vec<(String, Entry2)>,
    base: &Vec<String>,
    mod_name: &str,
    version: &str,
) -> (r: Vec<(String, Entry2)>)
    ensures
        entries_view(r@) == cleanup_overlay(
            entries_view(src@),
            entries_view(dest@),
            str_views(base@),
            mod_name@,
            version@,
        ),
{
    let ghost srcv = entries_view(src@);
    let ghost dv0 = entries_view(dest@);
    let ghost bv = str_views(base@);
    let mut cur = dest;
    let n = src.len();
    let mut i: usize = n;
    proof {
        assert(srcv.take(n as int) =~= srcv);
    }
    while i > 0
        invariant
            0 <= i <= n,
            n == src@.len(),
            srcv == entries_view(src@),
            bv == str_views(base@),
            cleanup_overlay(srcv, dv0, bv, mod_name@, version@) == cleanup_overlay(
                srcv.take(i as int),
                entries_view(cur@),
                bv,
                mod_name@,
                version@,
            ),
        decreases i,
    {
        let ghost dv = entries_view(cur@);
        i = i - 1;
        let name = &src[i].0;
        proof {
            assert(srcv[i as int] == (src@[i as int].0@, src@[i as int].1@));
            assert(srcv.take(i as int + 1).drop_last() =~= srcv.take(i as int));
            assert(srcv.take(i as int + 1).last() == srcv[i as int]);
        }
        let ghost step = cleanup_l2_one(dv, name@, src@[i as int].1@, bv, mod_name@, version@);
        let tgt = link_target(base, name);
        let found = find_entry(&cur, name.as_str());
        proof {
            assert(forall|k: int| 0 <= k < dv.len() ==> (#[trigger] dv[k]).0 == cur@[k].0@);
            if found is None {
                lemma_lookup_none(dv, name@);
            } else {
                let j = found->0;
                assert(dv[j as int].0 == name@);
                lemma_ops_at_first(dv, j as int, dv[j as int].1);
            }
        }
        match &src[i].1 {
            SrcEntry2::File { content: _ } => {
                match found {
                    None => {
                        proof {
                            assert(step == dv);
                        }
                    },
                    Some(j) => {
                        let old_pair = cur.remove(j);
                        match old_pair.1 {
                            Entry2::Link { target } => {
                                if paths_eq(&target, &tgt) {
                                    proof {
                                        assert(step == remove_entry(dv, name@));
                                        assert(entries_view(cur@) =~= dv.remove(j as int));
                                    }
                                } else {
                                    cur.insert(j, (name.clone(), Entry2::Link { target }));
                                    proof {
                                        assert(step == dv);
                                        assert(entries_view(cur@) =~= dv);
                                    }
                                }
                            },
                            Entry2::File { content } => {
                                cur.insert(j, (name.clone(), Entry2::File { content }));
                                proof {
                                    assert(step == dv);
                                    assert(entries_view(cur@) =~= dv);
                                }
                            },
                            Entry2::Dir { entries } => {
                                cur.insert(j, (name.clone(), Entry2::Dir { entries }));
                                proof {
                                    assert(step == dv);
                                    assert(entries_view(cur@) =~= dv);
                                }
                            },
                        }
                    },
                }
            },
            SrcEntry2::Dir { entries: sub } => {
                match found {
                    None => {
                        proof {
                            assert(step == dv);
                        }
                    },
                    Some(j) => {
                        let old_pair = cur.remove(j);
                        match old_pair.1 {
                            Entry2::Dir { entries } => {
                                let d1 = cleanup_l3_exec(sub, entries, &tgt, mod_name, version);
                                if d1.len() == 0 {
                                    proof {
                                        assert(entries_view(d1@) =~= Seq::<
                                            (Seq<char>, Entry3V),
                                        >::empty());
                                        assert(step == remove_entry(dv, name@));
                                        assert(entries_view(cur@) =~= dv.remove(j as int));
                                    }
                                } else {
                                    let ghost newv = Entry2V::Dir { entries: entries_view(d1@) };
                                    cur.insert(j, (name.clone(), Entry2::Dir { entries: d1 }));
                                    proof {
                                        lemma_ops_at_first(dv, j as int, newv);
                                        assert(entries_view(d1@).len() > 0);
                                        assert(step == update_entry(dv, name@, newv));
                                        assert(entries_view(cur@) =~= update_entry(
                                            dv,
                                            name@,
                                            newv,
                                        ));
                                    }
                                }
                            },
                            Entry2::File { content } => {
                                cur.insert(j, (name.clone(), Entry2::File { content }));
                                proof {
                                    assert(step == dv);
                                    assert(entries_view(cur@) =~= dv);
                                }
                            },
                            Entry2::Link { target } => {
                                cur.insert(j, (name.clone(), Entry2::Link { target }));
                                proof {
                                    assert(step == dv);
                                    assert(entries_view(cur@) =~= dv);
                                }
                            },
                        }
                    },
                }
            },
        }
    }
    proof {
        assert(srcv.take(0) =~= Seq::<(Seq<char>, SrcEntry2V)>::empty());
    }
    cur
}


/// Projects the payload onto the target tree (cleanup == false), or undoes
/// that projection (cleanup == true).  The projection either applies whole or
/// reports the first conflict with the tree unchanged; the undo never fails.
pub fn process_second_level_dirs(
    source: &Payload,
    target: TargetTree,
    source_base: &Vec<String>,
    mod_name: &str,
    version: &str,
    cleanup: bool,
) -> (r: Result<TargetTree, ModError>)
    ensures
        cleanup ==> (r matches Ok(t) && t@ == cleanup_overlay(
            source@,
            target@,
            str_views(source_base@),
            mod_name@,
            version@,
        )),
        !cleanup ==> match r {
            Ok(t) => apply_overlay(
                source@,
                target@,
                str_views(source_base@),
                mod_name@,
                version@,
            ) == Ok::<Seq<(Seq<char>, Entry2V)>, OverlayIssue>(t@),
            Err(e) => apply_overlay(
                source@,
                target@,
                str_views(source_base@),
                mod_name@,
                version@,
            ) matches Err(i) && issue_error(e, i),
        },
{
    if cleanup {
        let entries = cleanup_l2_exec(
            &source.entries,
            target.entries,
            source_base,
            mod_name,
            version,
        );
        Ok(TargetTree { entries })
    } else {
        match apply_l2_exec(&source.entries, target.entries, source_base, mod_name, version) {
            Ok(entries) => Ok(TargetTree { entries }),
            Err(e) => Err(e),
        }
    }
}


// ----------------------------------------------------------------------------
// The round-trip law: undoing a successful projection restores the tree
// ----------------------------------------------------------------------------

/// A deep place the projection may write without leaving a trace after the
/// undo: the name is free, or it names a text file that the payload leaf
/// merges into reversibly (well-formed blocks, the mod's block absent, and
/// more than whitespace in it, so the undo neither misses bytes nor deletes
/// the file).
pub open spec fn fresh_deep_at(
    dest: Seq<(Seq<char>, DeepV)>,
    name: Seq<char>,
    leaf: SrcLeafV,
    m: Seq<char>,
    v: Seq<char>,
) -> bool {
    match lookup(dest, name) {
        Option::None => true,
        Option::Some(old) => match old {
            DeepV::File { content } => match leaf {
                SrcLeafV::File { content: pc } => is_lua_name(name) && break_terminated(content)
                    && blocks_clean(lines_of(content), m, v) && body_lines_free(pc) && trim_spec(
                    content,
                ).len() > 0,
                SrcLeafV::Dir => false,
            },
            _ => false,
        },
    }
}

pub open spec fn fresh_deep(
    src: Seq<(Seq<char>, SrcLeafV)>,
    dest: Seq<(Seq<char>, DeepV)>,
    m: Seq<char>,
    v: Seq<char>,
) -> bool {
    forall|i: int|
        0 <= i < src.len() ==> fresh_deep_at(dest, (#[trigger] src[i]).0, src[i].1, m, v)
}

/// A second-level place the projection may write reversibly: a file entry
/// needs a free name; a directory entry may reuse a real directory that will
/// not end up empty and whose colliding deep entries are fresh.
pub open spec fn fresh_l3_at(
    dest: Seq<(Seq<char>, Entry3V)>,
    name: Seq<char>,
    node: SrcEntry3V,
    m: Seq<char>,
    v: Seq<char>,
) -> bool {
    match node {
        SrcEntry3V::File { content } => !has_name(dest, name),
        SrcEntry3V::Dir { entries: sub } => unique_names(sub) && match lookup(dest, name) {
            Option::None => true,
            Option::Some(old) => match old {
                Entry3V::Dir { entries: d0 } => d0.len() > 0 && unique_names(d0) && fresh_deep(
                    sub,
                    d0,
                    m,
                    v,
                ),
                _ => false,
            },
        },
    }
}

pub open spec fn fresh_l3(
    src: Seq<(Seq<char>, SrcEntry3V)>,
    dest: Seq<(Seq<char>, Entry3V)>,
    m: Seq<char>,
    v: Seq<char>,
) -> bool {
    forall|i: int| 0 <= i < src.len() ==> fresh_l3_at(dest, (#[trigger] src[i]).0, src[i].1, m, v)
}

pub open spec fn fresh_l2_at(
    dest: Seq<(Seq<char>, Entry2V)>,
    name: Seq<char>,
    node: SrcEntry2V,
    m: Seq<char>,
    v: Seq<char>,
) -> bool {
    match node {
        SrcEntry2V::File { content } => !has_name(dest, name),
        SrcEntry2V::Dir { entries: sub } => wf_src3(sub) && match lookup(dest, name) {
            Option::None => true,
            Option::Some(old) => match old {
                Entry2V::Dir { entries: d0 } => d0.len() > 0 && wf_tree3(d0) && fresh_l3(
                    sub,
                    d0,
                    m,
                    v,
                ),
                _ => false,
            },
        },
    }
}

/// A target tree the whole payload can be projected onto reversibly.
pub open spec fn fresh_overlay(
    src: Seq<(Seq<char>, SrcEntry2V)>,
    dest: Seq<(Seq<char>, Entry2V)>,
    m: Seq<char>,
    v: Seq<char>,
) -> bool {
    forall|i: int| 0 <= i < src.len() ==> fresh_l2_at(dest, (#[trigger] src[i]).0, src[i].1, m, v)
}

proof fn lemma_deep_one_rt(
    dest: Seq<(Seq<char>, DeepV)>,
    name: Seq<char>,
    leaf: SrcLeafV,
    base: Seq<Seq<char>>,
    m: Seq<char>,
    v: Seq<char>,
)
    requires
        unique_names(dest),
        fresh_deep_at(dest, name, leaf, m, v),
        plain_text(m),
        plain_text(v),
        apply_deep_one(dest, name, leaf, base, m, v) is Ok,
    ensures
        ({
            let d2 = apply_deep_one(dest, name, leaf, base, m, v)->Ok_0;
            &&& cleanup_deep_one(d2, name, leaf, base, m, v) == dest
            &&& unique_names(d2)
            &&& forall|n: Seq<char>| n != name ==> #[trigger] lookup(d2, n) == lookup(dest, n)
            &&& forall|n: Seq<char>|
                #[trigger] has_name(d2, n) ==> n == name || has_name(dest, n)
        }),
{
    let tgt = base.push(name);
    let d2 = apply_deep_one(dest, name, leaf, base, m, v)->Ok_0;
    lemma_lookup_is_has_name(dest, name);
    match lookup(dest, name) {
        Option::None => {
            assert(d2 == dest.push((name, DeepV::Link { target: tgt })));
            lemma_lookup_push(dest, name, DeepV::Link { target: tgt }, name);
            assert(lookup(d2, name) == Some(DeepV::Link { target: tgt }));
            lemma_remove_appended(dest, name, DeepV::Link { target: tgt });
            lemma_names_ops(dest, name, DeepV::Link { target: tgt });
            assert forall|n: Seq<char>| n != name implies #[trigger] lookup(d2, n) == lookup(
                dest,
                n,
            ) by {
                lemma_lookup_push(dest, name, DeepV::Link { target: tgt }, n);
            }
            assert forall|n: Seq<char>| #[trigger] has_name(d2, n) implies n == name || has_name(
                dest,
                n,
            ) by {
                if has_name(d2, n) && n != name {
                    let i = choose|i: int| 0 <= i < d2.len() && (#[trigger] d2[i]).0 == n;
                    assert(dest[i].0 == n);
                }
            }
        },
        Option::Some(old) => {
            let c = old->File_content;
            let pc = leaf->File_content;
            assert(is_lua_name(name));
            lemma_clean_has_no_block(c, m, v);
            assert(apply_spec(c, m, v, pc) == crate::ledger::add_spec(c, m, v, pc));
            let newc = apply_spec(c, m, v, pc);
            assert(d2 == update_entry(dest, name, DeepV::File { content: newc }));
            lemma_lookup_update(dest, name, DeepV::File { content: newc }, name);
            assert(lookup(d2, name) == Some(DeepV::File { content: newc }));
            lemma_patch_round_trip(c, m, v, pc);
            assert(remove_spec(newc, m, v) == c);
            assert(trim_spec(remove_spec(newc, m, v)).len() > 0);
            lemma_update_twice(dest, name, DeepV::File { content: newc }, DeepV::File {
                content: remove_spec(newc, m, v),
            });
            lemma_update_same(dest, name, DeepV::File { content: c });
            assert(cleanup_deep_one(d2, name, leaf, base, m, v) == dest);
            lemma_names_ops(dest, name, DeepV::File { content: newc });
            assert(unique_names(d2));
            assert forall|n: Seq<char>| n != name implies #[trigger] lookup(d2, n) == lookup(
                dest,
                n,
            ) by {
                lemma_lookup_update(dest, name, DeepV::File { content: newc }, n);
            }
            assert forall|n: Seq<char>| #[trigger] has_name(d2, n) implies n == name || has_name(
                dest,
                n,
            ) by {
                lemma_has_name_from_names(d2, dest, n);
            }
        },
    }
}

proof fn lemma_deep_rt(
    src: Seq<(Seq<char>, SrcLeafV)>,
    dest: Seq<(Seq<char>, DeepV)>,
    base: Seq<Seq<char>>,
    m: Seq<char>,
    v: Seq<char>,
)
    requires
        unique_names(src),
        unique_names(dest),
        fresh_deep(src, dest, m, v),
        plain_text(m),
        plain_text(v),
        apply_deep(src, dest, base, m, v) is Ok,
    ensures
        ({
            let d2 = apply_deep(src, dest, base, m, v)->Ok_0;
            &&& cleanup_deep(src, d2, base, m, v) == dest
            &&& unique_names(d2)
            &&& forall|n: Seq<char>|
                !has_name(src, n) ==> #[trigger] lookup(d2, n) == lookup(dest, n)
            &&& forall|n: Seq<char>|
                #[trigger] has_name(d2, n) ==> has_name(src, n) || has_name(dest, n)
        }),
    decreases src.len(),
{
    if src.len() == 0 {
        let d2 = apply_deep(src, dest, base, m, v)->Ok_0;
        assert(d2 == dest);
    } else {
        let sp = src.drop_last();
        let nm = src.last().0;
        let lf = src.last().1;
        assert(unique_names(sp)) by {
            assert(forall|i: int| 0 <= i < sp.len() ==> #[trigger] sp[i] == src[i]);
        }
        assert(fresh_deep(sp, dest, m, v)) by {
            assert(forall|i: int| 0 <= i < sp.len() ==> #[trigger] sp[i] == src[i]);
        }
        assert(apply_deep(sp, dest, base, m, v) is Ok);
        lemma_deep_rt(sp, dest, base, m, v);
        let x = apply_deep(sp, dest, base, m, v)->Ok_0;
        assert(!has_name(sp, nm)) by {
            if has_name(sp, nm) {
                let i = choose|i: int| 0 <= i < sp.len() && (#[trigger] sp[i]).0 == nm;
                assert(src[i].0 == src[src.len() - 1].0);
            }
        }
        assert(lookup(x, nm) == lookup(dest, nm));
        assert(fresh_deep_at(dest, nm, lf, m, v)) by {
            assert(src[src.len() - 1] == (nm, lf));
        }
        assert(fresh_deep_at(x, nm, lf, m, v));
        assert(apply_deep_one(x, nm, lf, base, m, v) is Ok);
        lemma_deep_one_rt(x, nm, lf, base, m, v);
        let d2 = apply_deep_one(x, nm, lf, base, m, v)->Ok_0;
        assert(apply_deep(src, dest, base, m, v) == Ok::<Seq<(Seq<char>, DeepV)>, OverlayIssue>(
            d2,
        ));
        assert(cleanup_deep_one(d2, nm, lf, base, m, v) == x);
        assert(cleanup_deep(src, d2, base, m, v) == cleanup_deep(sp, x, base, m, v));
        assert forall|n: Seq<char>| !has_name(src, n) implies #[trigger] lookup(d2, n) == lookup(
            dest,
            n,
        ) by {
            assert(!has_name(sp, n)) by {
                if has_name(sp, n) {
                    let i = choose|i: int| 0 <= i < sp.len() && (#[trigger] sp[i]).0 == n;
                    assert(src[i].0 == n);
                }
            }
            assert(n != nm) by {
                if n == nm {
                    assert(src[src.len() - 1].0 == n);
                }
            }
            assert(lookup(d2, n) == lookup(x, n));
        }
        assert forall|n: Seq<char>| #[trigger] has_name(d2, n) implies has_name(src, n)
            || has_name(dest, n) by {
            if n == nm {
                assert(src[src.len() - 1].0 == n);
            } else {
                assert(has_name(x, n));
                if has_name(sp, n) {
                    let i = choose|i: int| 0 <= i < sp.len() && (#[trigger] sp[i]).0 == n;
                    assert(src[i].0 == n);
                }
            }
        }
    }
}

proof fn lemma_l3_one_rt(
    dest: Seq<(Seq<char>, Entry3V)>,
    name: Seq<char>,
    node: SrcEntry3V,
    base: Seq<Seq<char>>,
    m: Seq<char>,
    v: Seq<char>,
)
    requires
        unique_names(dest),
        fresh_l3_at(dest, name, node, m, v),
        plain_text(m),
        plain_text(v),
        apply_l3_one(dest, name, node, base, m, v) is Ok,
    ensures
        ({
            let d2 = apply_l3_one(dest, name, node, base, m, v)->Ok_0;
            &&& cleanup_l3_one(d2, name, node, base, m, v) == dest
            &&& unique_names(d2)
            &&& forall|n: Seq<char>| n != name ==> #[trigger] lookup(d2, n) == lookup(dest, n)
            &&& forall|n: Seq<char>|
                #[trigger] has_name(d2, n) ==> n == name || has_name(dest, n)
        }),
{
    let tgt = base.push(name);
    let d2 = apply_l3_one(dest, name, node, base, m, v)->Ok_0;
    lemma_lookup_is_has_name(dest, name);
    match node {
        SrcEntry3V::File { content } => {
            assert(lookup(dest, name) is None);
            assert(d2 == dest.push((name, Entry3V::Link { target: tgt })));
            lemma_lookup_push(dest, name, Entry3V::Link { target: tgt }, name);
            lemma_remove_appended(dest, name, Entry3V::Link { target: tgt });
            lemma_names_ops(dest, name, Entry3V::Link { target: tgt });
            assert forall|n: Seq<char>| n != name implies #[trigger] lookup(d2, n) == lookup(
                dest,
                n,
            ) by {
                lemma_lookup_push(dest, name, Entry3V::Link { target: tgt }, n);
            }
            assert forall|n: Seq<char>| #[trigger] has_name(d2, n) implies n == name || has_name(
                dest,
                n,
            ) by {
                if has_name(d2, n) && n != name {
                    let i = choose|i: int| 0 <= i < d2.len() && (#[trigger] d2[i]).0 == n;
                    assert(dest[i].0 == n);
                }
            }
        },
        SrcEntry3V::Dir { entries: sub } => {
            match lookup(dest, name) {
                Option::None => {
                    let dd = apply_deep(sub, Seq::empty(), tgt, m, v);
                    assert(dd is Ok);
                    assert(fresh_deep(sub, Seq::empty(), m, v)) by {
                        assert(forall|n: Seq<char>|
                            lookup(Seq::<(Seq<char>, DeepV)>::empty(), n) is None);
                    }
                    lemma_deep_rt(sub, Seq::empty(), tgt, m, v);
                    let d = dd->Ok_0;
                    assert(cleanup_deep(sub, d, tgt, m, v) =~= Seq::<(Seq<char>, DeepV)>::empty());
                    assert(d2 == dest.push((name, Entry3V::Dir { entries: d })));
                    lemma_lookup_push(dest, name, Entry3V::Dir { entries: d }, name);
                    lemma_remove_appended(dest, name, Entry3V::Dir { entries: d });
                    lemma_names_ops(dest, name, Entry3V::Dir { entries: d });
                    assert(cleanup_l3_one(d2, name, node, base, m, v) == dest);
                    assert forall|n: Seq<char>| n != name implies #[trigger] lookup(d2, n)
                        == lookup(dest, n) by {
                        lemma_lookup_push(dest, name, Entry3V::Dir { entries: d }, n);
                    }
                    assert forall|n: Seq<char>| #[trigger] has_name(d2, n) implies n == name
                        || has_name(dest, n) by {
                        if has_name(d2, n) && n != name {
                            let i = choose|i: int| 0 <= i < d2.len() && (#[trigger] d2[i]).0 == n;
                            assert(dest[i].0 == n);
                        }
                    }
                },
                Option::Some(old) => {
                    let d0 = old->Dir_entries;
                    assert(d0.len() > 0 && unique_names(d0) && fresh_deep(sub, d0, m, v));
                    let dd = apply_deep(sub, d0, tgt, m, v);
                    assert(dd is Ok);
                    lemma_deep_rt(sub, d0, tgt, m, v);
                    let d = dd->Ok_0;
                    assert(cleanup_deep(sub, d, tgt, m, v) == d0);
                    assert(d2 == update_entry(dest, name, Entry3V::Dir { entries: d }));
                    lemma_lookup_update(dest, name, Entry3V::Dir { entries: d }, name);
                    assert(lookup(d2, name) == Some(Entry3V::Dir { entries: d }));
                    lemma_update_twice(dest, name, Entry3V::Dir { entries: d }, Entry3V::Dir {
                        entries: d0,
                    });
                    lemma_update_same(dest, name, Entry3V::Dir { entries: d0 });
                    assert(cleanup_l3_one(d2, name, node, base, m, v) == dest);
                    lemma_names_ops(dest, name, Entry3V::Dir { entries: d });
                    assert(unique_names(d2));
                    assert forall|n: Seq<char>| n != name implies #[trigger] lookup(d2, n)
                        == lookup(dest, n) by {
                        lemma_lookup_update(dest, name, Entry3V::Dir { entries: d }, n);
                    }
                    assert forall|n: Seq<char>| #[trigger] has_name(d2, n) implies n == name
                        || has_name(dest, n) by {
                        lemma_has_name_from_names(d2, dest, n);
                    }
                },
            }
        },
    }
}

proof fn lemma_l3_rt(
    src: Seq<(Seq<char>, SrcEntry3V)>,
    dest: Seq<(Seq<char>, Entry3V)>,
    base: Seq<Seq<char>>,
    m: Seq<char>,
    v: Seq<char>,
)
    requires
        unique_names(src),
        unique_names(dest),
        fresh_l3(src, dest, m, v),
        plain_text(m),
        plain_text(v),
        apply_l3(src, dest, base, m, v) is Ok,
    ensures
        ({
            let d2 = apply_l3(src, dest, base, m, v)->Ok_0;
            &&& cleanup_l3(src, d2, base, m, v) == dest
            &&& unique_names(d2)
            &&& forall|n: Seq<char>|
                !has_name(src, n) ==> #[trigger] lookup(d2, n) == lookup(dest, n)
            &&& forall|n: Seq<char>|
                #[trigger] has_name(d2, n) ==> has_name(src, n) || has_name(dest, n)
        }),
    decreases src.len(),
{
    if src.len() == 0 {
    } else {
        let sp = src.drop_last();
        let nm = src.last().0;
        let nd = src.last().1;
        assert(unique_names(sp)) by {
            assert(forall|i: int| 0 <= i < sp.len() ==> #[trigger] sp[i] == src[i]);
        }
        assert(fresh_l3(sp, dest, m, v)) by {
            assert(forall|i: int| 0 <= i < sp.len() ==> #[trigger] sp[i] == src[i]);
        }
        assert(apply_l3(sp, dest, base, m, v) is Ok);
        lemma_l3_rt(sp, dest, base, m, v);
        let x = apply_l3(sp, dest, base, m, v)->Ok_0;
        assert(!has_name(sp, nm)) by {
            if has_name(sp, nm) {
                let i = choose|i: int| 0 <= i < sp.len() && (#[trigger] sp[i]).0 == nm;
                assert(src[i].0 == src[src.len() - 1].0);
            }
        }
        assert(lookup(x, nm) == lookup(dest, nm));
        assert(fresh_l3_at(dest, nm, nd, m, v)) by {
            assert(src[src.len() - 1] == (nm, nd));
        }
        assert(fresh_l3_at(x, nm, nd, m, v)) by {
            lemma_lookup_is_has_name(x, nm);
            lemma_lookup_is_has_name(dest, nm);
        }
        assert(apply_l3_one(x, nm, nd, base, m, v) is Ok);
        lemma_l3_one_rt(x, nm, nd, base, m, v);
        let d2 = apply_l3_one(x, nm, nd, base, m, v)->Ok_0;
        assert(cleanup_l3_one(d2, nm, nd, base, m, v) == x);
        assert(cleanup_l3(src, d2, base, m, v) == cleanup_l3(sp, x, base, m, v));
        assert forall|n: Seq<char>| !has_name(src, n) implies #[trigger] lookup(d2, n) == lookup(
            dest,
            n,
        ) by {
            assert(!has_name(sp, n)) by {
                if has_name(sp, n) {
                    let i = choose|i: int| 0 <= i < sp.len() && (#[trigger] sp[i]).0 == n;
                    assert(src[i].0 == n);
                }
            }
            assert(n != nm) by {
                if n == nm {
                    assert(src[src.len() - 1].0 == n);
                }
            }
            assert(lookup(d2, n) == lookup(x, n));
        }
        assert forall|n: Seq<char>| #[trigger] has_name(d2, n) implies has_name(src, n)
            || has_name(dest, n) by {
            if n == nm {
                assert(src[src.len() - 1].0 == n);
            } else {
                assert(has_name(x, n));
                if has_name(sp, n) {
                    let i = choose|i: int| 0 <= i < sp.len() && (#[trigger] sp[i]).0 == n;
                    assert(src[i].0 == n);
                }
            }
        }
    }
}

proof fn lemma_l2_one_rt(
    dest: Seq<(Seq<char>, Entry2V)>,
    name: Seq<char>,
    node: SrcEntry2V,
    base: Seq<Seq<char>>,
    m: Seq<char>,
    v: Seq<char>,
)
    requires
        unique_names(dest),
        fresh_l2_at(dest, name, node, m, v),
        plain_text(m),
        plain_text(v),
        apply_l2_one(dest, name, node, base, m, v) is Ok,
    ensures
        ({
            let d2 = apply_l2_one(dest, name, node, base, m, v)->Ok_0;
            &&& cleanup_l2_one(d2, name, node, base, m, v) == dest
            &&& unique_names(d2)
            &&& forall|n: Seq<char>| n != name ==> #[trigger] lookup(d2, n) == lookup(dest, n)
            &&& forall|n: Seq<char>|
                #[trigger] has_name(d2, n) ==> n == name || has_name(dest, n)
        }),
{
    let tgt = base.push(name);
    let d2 = apply_l2_one(dest, name, node, base, m, v)->Ok_0;
    lemma_lookup_is_has_name(dest, name);
    match node {
        SrcEntry2V::File { content } => {
            assert(lookup(dest, name) is None);
            assert(d2 == dest.push((name, Entry2V::Link { target: tgt })));
            lemma_lookup_push(dest, name, Entry2V::Link { target: tgt }, name);
            lemma_remove_appended(dest, name, Entry2V::Link { target: tgt });
            lemma_names_ops(dest, name, Entry2V::Link { target: tgt });
            assert forall|n: Seq<char>| n != name implies #[trigger] lookup(d2, n) == lookup(
                dest,
                n,
            ) by {
                lemma_lookup_push(dest, name, Entry2V::Link { target: tgt }, n);
            }
            assert forall|n: Seq<char>| #[trigger] has_name(d2, n) implies n == name || has_name(
                dest,
                n,
            ) by {
                if has_name(d2, n) && n != name {
                    let i = choose|i: int| 0 <= i < d2.len() && (#[trigger] d2[i]).0 == n;
                    assert(dest[i].0 == n);
                }
            }
        },
        SrcEntry2V::Dir { entries: sub } => {
            match lookup(dest, name) {
                Option::None => {
                    let dd = apply_l3(sub, Seq::empty(), tgt, m, v);
                    assert(dd is Ok);
                    assert(fresh_l3(sub, Seq::empty(), m, v)) by {
                        assert(forall|n: Seq<char>|
                            lookup(Seq::<(Seq<char>, Entry3V)>::empty(), n) is None);
                        assert(forall|n: Seq<char>|
                            !has_name(Seq::<(Seq<char>, Entry3V)>::empty(), n));
                        assert(forall|i: int|
                            0 <= i < sub.len() ==> match (#[trigger] sub[i]).1 {
                                SrcEntry3V::Dir { entries } => unique_names(entries),
                                _ => true,
                            });
                    }
                    lemma_l3_rt(sub, Seq::empty(), tgt, m, v);
                    let d = dd->Ok_0;
                    assert(cleanup_l3(sub, d, tgt, m, v) =~= Seq::<(Seq<char>, Entry3V)>::empty());
                    assert(d2 == dest.push((name, Entry2V::Dir { entries: d })));
                    lemma_lookup_push(dest, name, Entry2V::Dir { entries: d }, name);
                    lemma_remove_appended(dest, name, Entry2V::Dir { entries: d });
                    lemma_names_ops(dest, name, Entry2V::Dir { entries: d });
                    assert(cleanup_l2_one(d2, name, node, base, m, v) == dest);
                    assert forall|n: Seq<char>| n != name implies #[trigger] lookup(d2, n)
                        == lookup(dest, n) by {
                        lemma_lookup_push(dest, name, Entry2V::Dir { entries: d }, n);
                    }
                    assert forall|n: Seq<char>| #[trigger] has_name(d2, n) implies n == name
                        || has_name(dest, n) by {
                        if has_name(d2, n) && n != name {
                            let i = choose|i: int| 0 <= i < d2.len() && (#[trigger] d2[i]).0 == n;
                            assert(dest[i].0 == n);
                        }
                    }
                },
                Option::Some(old) => {
                    let d0 = old->Dir_entries;
                    assert(d0.len() > 0 && wf_tree3(d0) && fresh_l3(sub, d0, m, v));
                    let dd = apply_l3(sub, d0, tgt, m, v);
                    assert(dd is Ok);
                    lemma_l3_rt(sub, d0, tgt, m, v);
                    let d = dd->Ok_0;
                    assert(cleanup_l3(sub, d, tgt, m, v) == d0);
                    assert(d2 == update_entry(dest, name, Entry2V::Dir { entries: d }));
                    lemma_lookup_update(dest, name, Entry2V::Dir { entries: d }, name);
                    lemma_update_twice(dest, name, Entry2V::Dir { entries: d }, Entry2V::Dir {
                        entries: d0,
                    });
                    lemma_update_same(dest, name, Entry2V::Dir { entries: d0 });
                    assert(cleanup_l2_one(d2, name, node, base, m, v) == dest);
                    lemma_names_ops(dest, name, Entry2V::Dir { entries: d });
                    assert(unique_names(d2));
                    assert forall|n: Seq<char>| n != name implies #[trigger] lookup(d2, n)
                        == lookup(dest, n) by {
                        lemma_lookup_update(dest, name, Entry2V::Dir { entries: d }, n);
                    }
                    assert forall|n: Seq<char>| #[trigger] has_name(d2, n) implies n == name
                        || has_name(dest, n) by {
                        lemma_has_name_from_names(d2, dest, n);
                    }
                },
            }
        },
    }
}

/// Projecting a payload onto a fresh target tree and then undoing that
/// projection restores the tree exactly: no links, no patch bytes, and no
/// directories made for the projection are left behind.
pub proof fn lemma_overlay_round_trip(
    src: Seq<(Seq<char>, SrcEntry2V)>,
    dest: Seq<(Seq<char>, Entry2V)>,
    base: Seq<Seq<char>>,
    m: Seq<char>,
    v: Seq<char>,
)
    requires
        unique_names(src),
        unique_names(dest),
        fresh_overlay(src, dest, m, v),
        plain_text(m),
        plain_text(v),
        apply_overlay(src, dest, base, m, v) is Ok,
    ensures
        cleanup_overlay(src, apply_overlay(src, dest, base, m, v)->Ok_0, base, m, v) == dest,
        unique_names(apply_overlay(src, dest, base, m, v)->Ok_0),
    decreases src.len(),
{
    if src.len() == 0 {
    } else {
        let sp = src.drop_last();
        let nm = src.last().0;
        let nd = src.last().1;
        assert(unique_names(sp)) by {
            assert(forall|i: int| 0 <= i < sp.len() ==> #[trigger] sp[i] == src[i]);
        }
        assert(fresh_overlay(sp, dest, m, v)) by {
            assert(forall|i: int| 0 <= i < sp.len() ==> #[trigger] sp[i] == src[i]);
        }
        assert(apply_overlay(sp, dest, base, m, v) is Ok);
        lemma_overlay_round_trip(sp, dest, base, m, v);
        let x = apply_overlay(sp, dest, base, m, v)->Ok_0;
        lemma_overlay_frame(sp, dest, base, m, v);
        assert(!has_name(sp, nm)) by {
            if has_name(sp, nm) {
                let i = choose|i: int| 0 <= i < sp.len() && (#[trigger] sp[i]).0 == nm;
                assert(src[i].0 == src[src.len() - 1].0);
            }
        }
        assert(lookup(x, nm) == lookup(dest, nm));
        assert(fresh_l2_at(dest, nm, nd, m, v)) by {
            assert(src[src.len() - 1] == (nm, nd));
        }
        assert(fresh_l2_at(x, nm, nd, m, v)) by {
            lemma_lookup_is_has_name(x, nm);
            lemma_lookup_is_has_name(dest, nm);
        }
        assert(apply_l2_one(x, nm, nd, base, m, v) is Ok);
        lemma_l2_one_rt(x, nm, nd, base, m, v);
        let d2 = apply_l2_one(x, nm, nd, base, m, v)->Ok_0;
        assert(cleanup_l2_one(d2, nm, nd, base, m, v) == x);
        assert(cleanup_overlay(src, d2, base, m, v) == cleanup_overlay(sp, x, base, m, v));
    }
}

/// The projection changes no entry whose name the payload does not use.
proof fn lemma_overlay_frame(
    src: Seq<(Seq<char>, SrcEntry2V)>,
    dest: Seq<(Seq<char>, Entry2V)>,
    base: Seq<Seq<char>>,
    m: Seq<char>,
    v: Seq<char>,
)
    requires
        unique_names(src),
        unique_names(dest),
        fresh_overlay(src, dest, m, v),
        plain_text(m),
        plain_text(v),
        apply_overlay(src, dest, base, m, v) is Ok,
    ensures
        ({
            let d2 = apply_overlay(src, dest, base, m, v)->Ok_0;
            &&& unique_names(d2)
            &&& forall|n: Seq<char>|
                !has_name(src, n) ==> #[trigger] lookup(d2, n) == lookup(dest, n)
            &&& forall|n: Seq<char>|
                #[trigger] has_name(d2, n) ==> has_name(src, n) || has_name(dest, n)
        }),
    decreases src.len(),
{
    if src.len() == 0 {
    } else {
        let sp = src.drop_last();
        let nm = src.last().0;
        let nd = src.last().1;
        assert(unique_names(sp)) by {
            assert(forall|i: int| 0 <= i < sp.len() ==> #[trigger] sp[i] == src[i]);
        }
        assert(fresh_overlay(sp, dest, m, v)) by {
            assert(forall|i: int| 0 <= i < sp.len() ==> #[trigger] sp[i] == src[i]);
        }
        assert(apply_overlay(sp, dest, base, m, v) is Ok);
        lemma_overlay_frame(sp, dest, base, m, v);
        let x = apply_overlay(sp, dest, base, m, v)->Ok_0;
        assert(!has_name(sp, nm)) by {
            if has_name(sp, nm) {
                let i = choose|i: int| 0 <= i < sp.len() && (#[trigger] sp[i]).0 == nm;
                assert(src[i].0 == src[src.len() - 1].0);
            }
        }
        assert(lookup(x, nm) == lookup(dest, nm));
        assert(fresh_l2_at(dest, nm, nd, m, v)) by {
            assert(src[src.len() - 1] == (nm, nd));
        }
        assert(fresh_l2_at(x, nm, nd, m, v)) by {
            lemma_lookup_is_has_name(x, nm);
            lemma_lookup_is_has_name(dest, nm);
        }
        assert(apply_l2_one(x, nm, nd, base, m, v) is Ok);
        lemma_l2_one_rt(x, nm, nd, base, m, v);
        let d2 = apply_l2_one(x, nm, nd, base, m, v)->Ok_0;
        assert forall|n: Seq<char>| !has_name(src, n) implies #[trigger] lookup(d2, n) == lookup(
            dest,
            n,
        ) by {
            assert(!has_name(sp, n)) by {
                if has_name(sp, n) {
                    let i = choose|i: int| 0 <= i < sp.len() && (#[trigger] sp[i]).0 == n;
                    assert(src[i].0 == n);
                }
            }
            assert(n != nm) by {
                if n == nm {
                    assert(src[src.len() - 1].0 == n);
                }
            }
            assert(lookup(d2, n) == lookup(x, n));
        }
        assert forall|n: Seq<char>| #[trigger] has_name(d2, n) implies has_name(src, n)
            || has_name(dest, n) by {
            if n == nm {
                assert(src[src.len() - 1].0 == n);
            } else {
                assert(has_name(x, n));
                if has_name(sp, n) {
                    let i = choose|i: int| 0 <= i < sp.len() && (#[trigger] sp[i]).0 == n;
                    assert(src[i].0 == n);
                }
            }
        }
    }
}


// ----------------------------------------------------------------------------
// Copying trees
// ----------------------------------------------------------------------------

fn clone_deep_entries(es: &Vec<(String, DeepEntry)>) -> (r: Vec<(String, DeepEntry)>)
    ensures
        entries_view(r@) == entries_view(es@),
{
    let mut r: Vec<(String, DeepEntry)> = Vec::new();
    let mut i: usize = 0;
    while i < es.len()
        invariant
            0 <= i <= es@.len(),
            entries_view(r@) =~= entries_view(es@).take(i as int),
        decreases es@.len() - i,
    {
        let e = match &es[i].1 {
            DeepEntry::File { content } => DeepEntry::File { content: content.clone() },
            DeepEntry::Dir => DeepEntry::Dir,
            DeepEntry::Link { target } => DeepEntry::Link { target: clone_path(target) },
        };
        proof {
            assert(e@ == es@[i as int].1@);
        }
        let ghost r0 = r@;
        r.push((es[i].0.clone(), e));
        proof {
            assert(r@.last().0@ == es@[i as int].0@);
            assert(r@.last().1@ == es@[i as int].1@);
            assert(forall|k: int| 0 <= k < r0.len() ==> r@[k] == r0[k]);
            assert(forall|k: int|
                0 <= k < r0.len() ==> entries_view(r@)[k] == entries_view(r0)[k]);
            assert(r@.len() == r0.len() + 1);
            assert(r0.len() == entries_view(r0).len());
            assert(entries_view(r@)[r0.len() as int] == (r@.last().0@, r@.last().1@));
            assert(entries_view(r@)[r0.len() as int] == (es@[i as int].0@, es@[i as int].1@));
            assert(entries_view(es@)[i as int] == (es@[i as int].0@, es@[i as int].1@));
            assert(entries_view(r@) =~= entries_view(es@).take(i as int + 1));
        }
        i = i + 1;
    }
    proof {
        assert(entries_view(es@).take(es@.len() as int) =~= entries_view(es@));
    }
    r
}

fn clone_l3_entries(es: &Vec<(String, Entry3)>) -> (r: Vec<(String, Entry3)>)
    ensures
        entries_view(r@) == entries_view(es@),
{
    let mut r: Vec<(String, Entry3)> = Vec::new();
    let mut i: usize = 0;
    while i < es.len()
        invariant
            0 <= i <= es@.len(),
            entries_view(r@) =~= entries_view(es@).take(i as int),
        decreases es@.len() - i,
    {
        let e = match &es[i].1 {
            Entry3::Dir { entries } => Entry3::Dir { entries: clone_deep_entries(entries) },
            Entry3::File { content } => Entry3::File { content: content.clone() },
            Entry3::Link { target } => Entry3::Link { target: clone_path(target) },
        };
        proof {
            assert(e@ == es@[i as int].1@);
        }
        let ghost r0 = r@;
        r.push((es[i].0.clone(), e));
        proof {
            assert(r@.last().0@ == es@[i as int].0@);
            assert(r@.last().1@ == es@[i as int].1@);
            assert(forall|k: int| 0 <= k < r0.len() ==> r@[k] == r0[k]);
            assert(forall|k: int|
                0 <= k < r0.len() ==> entries_view(r@)[k] == entries_view(r0)[k]);
            assert(r@.len() == r0.len() + 1);
            assert(r0.len() == entries_view(r0).len());
            assert(entries_view(r@)[r0.len() as int] == (r@.last().0@, r@.last().1@));
            assert(entries_view(r@)[r0.len() as int] == (es@[i as int].0@, es@[i as int].1@));
            assert(entries_view(es@)[i as int] == (es@[i as int].0@, es@[i as int].1@));
            assert(entries_view(r@) =~= entries_view(es@).take(i as int + 1));
        }
        i = i + 1;
    }
    proof {
        assert(entries_view(es@).take(es@.len() as int) =~= entries_view(es@));
    }
    r
}

fn clone_l2_entries(es: &Vec<(String, Entry2)>) -> (r: Vec<(String, Entry2)>)
    ensures
        entries_view(r@) == entries_view(es@),
{
    let mut r: Vec<(String, Entry2)> = Vec::new();
    let mut i: usize = 0;
    while i < es.len()
        invariant
            0 <= i <= es@.len(),
            entries_view(r@) =~= entries_view(es@).take(i as int),
        decreases es@.len() - i,
    {
        let e = match &es[i].1 {
            Entry2::Dir { entries } => Entry2::Dir { entries: clone_l3_entries(entries) },
            Entry2::File { content } => Entry2::File { content: content.clone() },
            Entry2::Link { target } => Entry2::Link { target: clone_path(target) },
        };
        proof {
            assert(e@ == es@[i as int].1@);
        }
        let ghost r0 = r@;
        r.push((es[i].0.clone(), e));
        proof {
            assert(r@.last().0@ == es@[i as int].0@);
            assert(r@.last().1@ == es@[i as int].1@);
            assert(forall|k: int| 0 <= k < r0.len() ==> r@[k] == r0[k]);
            assert(forall|k: int|
                0 <= k < r0.len() ==> entries_view(r@)[k] == entries_view(r0)[k]);
            assert(r@.len() == r0.len() + 1);
            assert(r0.len() == entries_view(r0).len());
            assert(entries_view(r@)[r0.len() as int] == (r@.last().0@, r@.last().1@));
            assert(entries_view(r@)[r0.len() as int] == (es@[i as int].0@, es@[i as int].1@));
            assert(entries_view(es@)[i as int] == (es@[i as int].0@, es@[i as int].1@));
            assert(entries_view(r@) =~= entries_view(es@).take(i as int + 1));
        }
        i = i + 1;
    }
    proof {
        assert(entries_view(es@).take(es@.len() as int) =~= entries_view(es@));
    }
    r
}

/// An owned copy of the target tree.
pub fn clone_tree(t: &TargetTree) -> (r: TargetTree)
    ensures
        r@ == t@,
{
    TargetTree { entries: clone_l2_entries(&t.entries) }
}

/// Whether a link in the target still points at the place the overlay would
/// link this entry to.
pub fn verify_symlink(link_target: &Vec<String>, expected_target: &Vec<String>) -> (r: bool)
    ensures
        r == (str_views(link_target@) == str_views(expected_target@)),
{
    paths_eq(link_target, expected_target)
}

} // verus!
