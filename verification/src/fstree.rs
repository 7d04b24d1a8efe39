use vstd::prelude::*;
use crate::strutil::str_eq;

verus! {

// ----------------------------------------------------------------------------
// Views of owned entries
// ----------------------------------------------------------------------------

/// The views of a vector of path components.
pub open spec fn str_views(v: Seq<String>) -> Seq<Seq<char>> {
    v.map_values(|s: String| s@)
}

/// The view of a directory's owned entries.
pub open spec fn entries_view<T: View>(es: Seq<(String, T)>) -> Seq<(Seq<char>, T::V)> {
    es.map_values(|p: (String, T)| (p.0@, p.1@))
}

// ----------------------------------------------------------------------------
// Named entries
//
// Directories in the model filesystem are sequences of (name, node) pairs with
// pairwise-distinct names.  The engine looks entries up by name, appends new
// ones at the end, replaces one in place, or removes one.
// ----------------------------------------------------------------------------

/// The names of the entries, in order.
pub open spec fn names_of<T>(es: Seq<(Seq<char>, T)>) -> Seq<Seq<char>> {
    es.map_values(|p: (Seq<char>, T)| p.0)
}

/// No two entries share a name.
pub open spec fn unique_names<T>(es: Seq<(Seq<char>, T)>) -> bool {
    forall|i: int, j: int| 0 <= i < j < es.len() ==> (#[trigger] es[i]).0 != (#[trigger] es[j]).0
}

pub open spec fn has_name<T>(es: Seq<(Seq<char>, T)>, name: Seq<char>) -> bool {
    exists|i: int| 0 <= i < es.len() && (#[trigger] es[i]).0 == name
}

/// The value of the first entry with this name.
pub open spec fn lookup<T>(es: Seq<(Seq<char>, T)>, name: Seq<char>) -> Option<T>
    decreases es.len(),
{
    if es.len() == 0 {
        None
    } else if es[0].0 == name {
        Some(es[0].1)
    } else {
        lookup(es.drop_first(), name)
    }
}

/// The entries with the first entry named `name` replaced by (name, val).
pub open spec fn update_entry<T>(es: Seq<(Seq<char>, T)>, name: Seq<char>, val: T) -> Seq<
    (Seq<char>, T),
>
    decreases es.len(),
{
    if es.len() == 0 {
        es
    } else if es[0].0 == name {
        seq![(name, val)] + es.drop_first()
    } else {
        seq![es[0]] + update_entry(es.drop_first(), name, val)
    }
}

/// The entries with the first entry named `name` removed.
pub open spec fn remove_entry<T>(es: Seq<(Seq<char>, T)>, name: Seq<char>) -> Seq<(Seq<char>, T)>
    decreases es.len(),
{
    if es.len() == 0 {
        es
    } else if es[0].0 == name {
        es.drop_first()
    } else {
        seq![es[0]] + remove_entry(es.drop_first(), name)
    }
}

// ----------------------------------------------------------------------------
// Laws of the entry operations
// ----------------------------------------------------------------------------

pub proof fn lemma_lookup_is_has_name<T>(es: Seq<(Seq<char>, T)>, name: Seq<char>)
    ensures
        has_name(es, name) == (lookup(es, name) is Some),
    decreases es.len(),
{
    if es.len() > 0 {
        if es[0].0 == name {
        } else {
            lemma_lookup_is_has_name(es.drop_first(), name);
            assert(has_name(es, name) == has_name(es.drop_first(), name)) by {
                if has_name(es, name) {
                    let i = choose|i: int| 0 <= i < es.len() && (#[trigger] es[i]).0 == name;
                    assert(es.drop_first()[i - 1].0 == name);
                }
                if has_name(es.drop_first(), name) {
                    let i = choose|i: int|
                        0 <= i < es.drop_first().len() && (#[trigger] es.drop_first()[i]).0 == name;
                    assert(es[i + 1].0 == name);
                }
            }
        }
    }
}

/// Appending a fresh name then removing it restores the entries exactly.
pub proof fn lemma_remove_appended<T>(es: Seq<(Seq<char>, T)>, name: Seq<char>, val: T)
    requires
        !has_name(es, name),
    ensures
        remove_entry(es.push((name, val)), name) == es,
    decreases es.len(),
{
    let s = es.push((name, val));
    if es.len() == 0 {
        assert(s[0].0 == name);
        assert(s.drop_first() =~= es);
    } else {
        assert(s[0] == es[0]);
        assert(es[0].0 != name);
        assert(s.drop_first() =~= es.drop_first().push((name, val)));
        assert(!has_name(es.drop_first(), name)) by {
            if has_name(es.drop_first(), name) {
                let i = choose|i: int|
                    0 <= i < es.drop_first().len() && (#[trigger] es.drop_first()[i]).0 == name;
                assert(es[i + 1].0 == name);
            }
        }
        lemma_remove_appended(es.drop_first(), name, val);
        assert(remove_entry(s, name) =~= es);
    }
}

/// Replacing an entry with the value it already has changes nothing.
pub proof fn lemma_update_same<T>(es: Seq<(Seq<char>, T)>, name: Seq<char>, val: T)
    requires
        lookup(es, name) == Some(val),
    ensures
        update_entry(es, name, val) == es,
    decreases es.len(),
{
    if es.len() > 0 {
        if es[0].0 == name {
            assert(update_entry(es, name, val) =~= es);
        } else {
            lemma_update_same(es.drop_first(), name, val);
            assert(update_entry(es, name, val) =~= es);
        }
    }
}

/// Two replacements in a row keep only the second.
pub proof fn lemma_update_twice<T>(es: Seq<(Seq<char>, T)>, name: Seq<char>, a: T, b: T)
    ensures
        update_entry(update_entry(es, name, a), name, b) == update_entry(es, name, b),
    decreases es.len(),
{
    if es.len() > 0 {
        if es[0].0 == name {
            let u1 = update_entry(es, name, a);
            assert(u1[0].0 == name);
            assert(u1.drop_first() =~= es.drop_first());
            assert(update_entry(u1, name, b) =~= update_entry(es, name, b));
        } else {
            lemma_update_twice(es.drop_first(), name, a, b);
            let u1 = update_entry(es, name, a);
            assert(u1[0] == es[0]);
            assert(u1.drop_first() =~= update_entry(es.drop_first(), name, a));
            assert(update_entry(u1, name, b) =~= update_entry(es, name, b));
        }
    }
}

/// What lookup sees after a replacement.
pub proof fn lemma_lookup_update<T>(es: Seq<(Seq<char>, T)>, name: Seq<char>, val: T, other: Seq<char>)
    ensures
        has_name(es, name) ==> lookup(update_entry(es, name, val), name) == Some(val),
        other != name ==> lookup(update_entry(es, name, val), other) == lookup(es, other),
    decreases es.len(),
{
    lemma_lookup_is_has_name(es, name);
    if es.len() > 0 {
        let u = update_entry(es, name, val);
        if es[0].0 == name {
            assert(u[0] == (name, val));
            assert(u.drop_first() =~= es.drop_first());
        } else {
            lemma_lookup_update(es.drop_first(), name, val, other);
            assert(u[0] == es[0]);
            assert(u.drop_first() =~= update_entry(es.drop_first(), name, val));
            assert(has_name(es, name) ==> has_name(es.drop_first(), name)) by {
                if has_name(es, name) {
                    let i = choose|i: int| 0 <= i < es.len() && (#[trigger] es[i]).0 == name;
                    assert(es.drop_first()[i - 1].0 == name);
                }
            }
        }
    }
}

/// What lookup sees after an append.
pub proof fn lemma_lookup_push<T>(es: Seq<(Seq<char>, T)>, name: Seq<char>, val: T, other: Seq<char>)
    ensures
        !has_name(es, name) ==> lookup(es.push((name, val)), name) == Some(val),
        other != name ==> lookup(es.push((name, val)), other) == lookup(es, other),
    decreases es.len(),
{
    let s = es.push((name, val));
    if es.len() == 0 {
        assert(s[0] == (name, val));
        assert(s.drop_first() =~= Seq::<(Seq<char>, T)>::empty());
    } else {
        assert(s[0] == es[0]);
        assert(s.drop_first() =~= es.drop_first().push((name, val)));
        lemma_lookup_push(es.drop_first(), name, val, other);
        assert(!has_name(es, name) ==> !has_name(es.drop_first(), name)) by {
            if has_name(es.drop_first(), name) {
                let i = choose|i: int|
                    0 <= i < es.drop_first().len() && (#[trigger] es.drop_first()[i]).0 == name;
                assert(es[i + 1].0 == name);
            }
        }
    }
}


/// Names after each operation.
pub proof fn lemma_names_ops<T>(es: Seq<(Seq<char>, T)>, name: Seq<char>, val: T)
    ensures
        names_of(es.push((name, val))) == names_of(es).push(name),
        has_name(es, name) ==> names_of(update_entry(es, name, val)) == names_of(es),
        unique_names(es) ==> (unique_names(es.push((name, val))) == !has_name(es, name)),
        unique_names(es) ==> unique_names(update_entry(es, name, val)),
    decreases es.len(),
{
    lemma_lookup_is_has_name(es, name);
    assert(names_of(es.push((name, val))) =~= names_of(es).push(name));
    if es.len() > 0 {
        if es[0].0 == name {
            let u = update_entry(es, name, val);
            assert(u =~= seq![(name, val)] + es.drop_first());
            assert(names_of(u) =~= names_of(es));
            assert(unique_names(es) ==> unique_names(u)) by {
                if unique_names(es) {
                    assert(forall|i: int| 0 <= i < u.len() ==> #[trigger] u[i].0 == es[i].0);
                }
            }
        } else {
            lemma_names_ops(es.drop_first(), name, val);
            let u = update_entry(es, name, val);
            assert(u[0] == es[0]);
            assert(u.drop_first() =~= update_entry(es.drop_first(), name, val));
            if has_name(es, name) {
                assert(has_name(es.drop_first(), name)) by {
                    let i = choose|i: int| 0 <= i < es.len() && (#[trigger] es[i]).0 == name;
                    assert(es.drop_first()[i - 1].0 == name);
                }
                let ud = update_entry(es.drop_first(), name, val);
                assert(names_of(ud) == names_of(es.drop_first()));
                assert(ud.len() == es.drop_first().len()) by {
                    assert(names_of(ud).len() == ud.len());
                    assert(names_of(es.drop_first()).len() == es.drop_first().len());
                }
                assert(names_of(u) =~= names_of(es)) by {
                    assert(u.len() == es.len());
                    assert(names_of(u)[0] == u[0].0);
                    assert(names_of(es)[0] == es[0].0);
                    assert(forall|i: int|
                        1 <= i < u.len() ==> names_of(u)[i] == #[trigger] u[i].0 && u[i]
                            == ud[i - 1]);
                    assert(forall|i: int|
                        0 <= i < ud.len() ==> #[trigger] ud[i].0 == names_of(ud)[i]);
                    assert(forall|i: int|
                        1 <= i < es.len() ==> names_of(es)[i] == (#[trigger] es[i]).0 && es[i]
                            == es.drop_first()[i - 1]);
                    assert(forall|i: int|
                        0 <= i < es.drop_first().len() ==> (#[trigger] es.drop_first()[i]).0
                            == names_of(es.drop_first())[i]);
                }
            }
            assert(unique_names(es) ==> unique_names(u)) by {
                if unique_names(es) && has_name(es, name) {
                    assert(forall|i: int| 0 <= i < u.len() ==> #[trigger] u[i].0 == es[i].0) by {
                        assert(names_of(u) =~= names_of(es));
                        assert(forall|i: int|
                            0 <= i < u.len() ==> names_of(u)[i] == #[trigger] u[i].0);
                        assert(forall|i: int|
                            0 <= i < es.len() ==> names_of(es)[i] == #[trigger] es[i].0);
                    }
                }
                if unique_names(es) && !has_name(es, name) {
                    lemma_update_absent(es, name, val);
                }
            }
        }
    } else {
        assert(update_entry(es, name, val) =~= es);
    }
    if unique_names(es) {
        let s = es.push((name, val));
        if has_name(es, name) {
            let i = choose|i: int| 0 <= i < es.len() && (#[trigger] es[i]).0 == name;
            assert(s[i].0 == s[es.len() as int].0);
            assert(!unique_names(s));
        } else {
            assert(unique_names(s)) by {
                assert(forall|i: int| 0 <= i < es.len() ==> #[trigger] s[i] == es[i]);
                assert(forall|i: int|
                    0 <= i < es.len() ==> (#[trigger] s[i]).0 != name);
            }
        }
    }
}

/// Updating a name that is not there changes nothing.
pub proof fn lemma_update_absent<T>(es: Seq<(Seq<char>, T)>, name: Seq<char>, val: T)
    requires
        !has_name(es, name),
    ensures
        update_entry(es, name, val) == es,
    decreases es.len(),
{
    if es.len() > 0 {
        assert(es[0].0 != name);
        assert(!has_name(es.drop_first(), name)) by {
            if has_name(es.drop_first(), name) {
                let i = choose|i: int|
                    0 <= i < es.drop_first().len() && (#[trigger] es.drop_first()[i]).0 == name;
                assert(es[i + 1].0 == name);
            }
        }
        lemma_update_absent(es.drop_first(), name, val);
        assert(update_entry(es, name, val) =~= es);
    } else {
        assert(update_entry(es, name, val) =~= es);
    }
}

/// Entries with the same names carry the same names.
pub proof fn lemma_has_name_from_names<T, U>(
    a: Seq<(Seq<char>, T)>,
    b: Seq<(Seq<char>, U)>,
    n: Seq<char>,
)
    requires
        names_of(a) == names_of(b),
    ensures
        has_name(a, n) == has_name(b, n),
{
    assert(a.len() == b.len()) by {
        assert(names_of(a).len() == a.len());
        assert(names_of(b).len() == b.len());
    }
    assert(forall|i: int| 0 <= i < a.len() ==> (#[trigger] a[i]).0 == names_of(a)[i]);
    assert(forall|i: int| 0 <= i < b.len() ==> (#[trigger] b[i]).0 == names_of(b)[i]);
    if has_name(a, n) {
        let i = choose|i: int| 0 <= i < a.len() && (#[trigger] a[i]).0 == n;
        assert(b[i].0 == n);
    }
    if has_name(b, n) {
        let i = choose|i: int| 0 <= i < b.len() && (#[trigger] b[i]).0 == n;
        assert(a[i].0 == n);
    }
}

/// At the first entry carrying a name, the by-name operations act by index.
pub proof fn lemma_ops_at_first<T>(es: Seq<(Seq<char>, T)>, i: int, val: T)
    requires
        0 <= i < es.len(),
        forall|k: int| 0 <= k < i ==> (#[trigger] es[k]).0 != es[i].0,
    ensures
        lookup(es, es[i].0) == Some(es[i].1),
        update_entry(es, es[i].0, val) == es.update(i, (es[i].0, val)),
        remove_entry(es, es[i].0) == es.remove(i),
    decreases i,
{
    if i == 0 {
        assert(update_entry(es, es[0].0, val) =~= es.update(0, (es[0].0, val)));
        assert(remove_entry(es, es[0].0) =~= es.remove(0));
    } else {
        let d = es.drop_first();
        assert(forall|k: int| 0 <= k < i - 1 ==> (#[trigger] d[k]).0 != d[i - 1].0) by {
            assert(forall|k: int| 0 <= k < d.len() ==> #[trigger] d[k] == es[k + 1]);
        }
        lemma_ops_at_first(d, i - 1, val);
        assert(es[0].0 != es[i].0);
        assert(d[i - 1] == es[i]);
        assert(update_entry(es, es[i].0, val) =~= es.update(i, (es[i].0, val))) by {
            assert(d.update(i - 1, (es[i].0, val)) =~= es.update(i, (es[i].0, val)).drop_first());
        }
        assert(remove_entry(es, es[i].0) =~= es.remove(i)) by {
            assert(d.remove(i - 1) =~= es.remove(i).drop_first());
            assert(es.remove(i)[0] == es[0]);
        }
    }
}

/// A name that no entry carries is not found.
pub proof fn lemma_lookup_none<T>(es: Seq<(Seq<char>, T)>, name: Seq<char>)
    requires
        forall|k: int| 0 <= k < es.len() ==> (#[trigger] es[k]).0 != name,
    ensures
        lookup(es, name) is None,
        !has_name(es, name),
    decreases es.len(),
{
    if es.len() > 0 {
        assert(forall|k: int|
            0 <= k < es.drop_first().len() ==> (#[trigger] es.drop_first()[k]).0 != name) by {
            assert(forall|k: int|
                0 <= k < es.drop_first().len() ==> #[trigger] es.drop_first()[k] == es[k + 1]);
        }
        lemma_lookup_none(es.drop_first(), name);
    }
}


// ----------------------------------------------------------------------------
// Executable helpers
// ----------------------------------------------------------------------------

/// The position of the first entry with this name, if any.
pub fn find_entry<T: View>(es: &Vec<(String, T)>, name: &str) -> (r: Option<usize>)
    ensures
        match r {
            Some(i) => i < es@.len() && es@[i as int].0@ == name@ && (forall|k: int|
                0 <= k < i ==> es@[k].0@ != name@),
            None => forall|k: int| 0 <= k < es@.len() ==> es@[k].0@ != name@,
        },
{
    let mut i: usize = 0;
    while i < es.len()
        invariant
            0 <= i <= es@.len(),
            forall|k: int| 0 <= k < i ==> es@[k].0@ != name@,
        decreases es@.len() - i,
    {
        if str_eq(es[i].0.as_str(), name) {
            return Some(i);
        }
        i = i + 1;
    }
    None
}

/// An owned copy of a path, component for component.
pub fn clone_path(v: &Vec<String>) -> (r: Vec<String>)
    ensures
        r@ == v@,
{
    let mut r: Vec<String> = Vec::new();
    let mut i: usize = 0;
    while i < v.len()
        invariant
            0 <= i <= v@.len(),
            r@ =~= v@.take(i as int),
        decreases v@.len() - i,
    {
        r.push(v[i].clone());
        proof {
            assert(r@ =~= v@.take(i as int + 1));
        }
        i = i + 1;
    }
    proof {
        assert(v@.take(v@.len() as int) =~= v@);
    }
    r
}

/// Whether two paths name the same place, component for component.
pub fn paths_eq(a: &Vec<String>, b: &Vec<String>) -> (r: bool)
    ensures
        r == (str_views(a@) == str_views(b@)),
{
    if a.len() != b.len() {
        assert(str_views(a@).len() != str_views(b@).len());
        return false;
    }
    let mut i: usize = 0;
    while i < a.len()
        invariant
            0 <= i <= a@.len(),
            a@.len() == b@.len(),
            forall|k: int| 0 <= k < i ==> a@[k]@ == b@[k]@,
        decreases a@.len() - i,
    {
        if !str_eq(a[i].as_str(), b[i].as_str()) {
            assert(str_views(a@)[i as int] != str_views(b@)[i as int]);
            return false;
        }
        i = i + 1;
    }
    proof {
        assert(str_views(a@) =~= str_views(b@));
    }
    true
}


} // verus!
