use vstd::prelude::*;
use crate::errors::ModError;
use crate::strutil::{
    is_space, push_char, trim_spec, trim_end_spec, trim_end_str, trim_str, lines_of, join_lines, line_views,
    split_lines, join_lines_vec, starts_with, str_starts_with, str_eq, lemma_join_lines_push,
    complete_lines, lemma_lines_single, lemma_lines_noterm,
    lemma_lines_nonempty, lemma_lines_concat, lemma_join_complete, lemma_join_unterminated,
    lemma_space_suffix_at,
    lemma_space_prefix_at,
};

verus! {

// ----------------------------------------------------------------------------
// The marked, versioned patch block
//
// A patch block is delimited by an identical marker line at its start and its
// end.  The line immediately after the opening marker carries a small record
// `-- {"mod_name":"...","version":"..."}` naming the owning mod and version.
// Several mods may patch one shared text file; their blocks are independent.
// ----------------------------------------------------------------------------

/// The marker line, as it stands in patched files.
pub open spec fn marker() -> Seq<char> {
    "-- This was added automatically by BorderZone Mod Manager. DO NOT EDIT! --"@
}

pub fn marker_str() -> (r: &'static str)
    ensures
        r@ == marker(),
{
    "-- This was added automatically by BorderZone Mod Manager. DO NOT EDIT! --"
}

/// The pieces of the info record following the opening marker.
pub open spec fn info_open() -> Seq<char> {
    "{\"mod_name\":\""@
}

pub open spec fn info_mid() -> Seq<char> {
    "\",\"version\":\""@
}

pub open spec fn info_close() -> Seq<char> {
    "\"}"@
}

pub open spec fn dash_prefix() -> Seq<char> {
    "-- "@
}

/// How one character stands inside a quoted field: quotes and backslashes
/// are escaped with a backslash, everything else stands as itself.
pub open spec fn escape_char(c: char) -> Seq<char> {
    if c == '"' || c == '\\' {
        seq!['\\', c]
    } else {
        seq![c]
    }
}

/// A text escaped for a quoted field.
pub open spec fn escape_text(s: Seq<char>) -> Seq<char>
    decreases s.len(),
{
    if s.len() == 0 {
        Seq::empty()
    } else {
        escape_char(s[0]) + escape_text(s.drop_first())
    }
}

/// The escaped field read back: a backslash takes the next character as it
/// stands; everything else stands as itself.
pub open spec fn unescape_text(s: Seq<char>) -> Seq<char>
    decreases s.len(),
{
    if s.len() == 0 {
        Seq::empty()
    } else if s[0] == '\\' && s.len() >= 2 {
        seq![s[1]] + unescape_text(s.skip(2))
    } else {
        seq![s[0]] + unescape_text(s.drop_first())
    }
}

/// The position of the first unescaped double quote, or the length.
pub open spec fn field_break(s: Seq<char>) -> nat
    decreases s.len(),
{
    if s.len() == 0 {
        0
    } else if s[0] == '"' {
        0
    } else if s[0] == '\\' {
        if s.len() == 1 {
            1
        } else {
            2 + field_break(s.skip(2))
        }
    } else {
        1 + field_break(s.drop_first())
    }
}

/// The serialized info record for one (mod, version) pair, fields escaped.
pub open spec fn info_record(m: Seq<char>, v: Seq<char>) -> Seq<char> {
    info_open() + escape_text(m) + info_mid() + escape_text(v) + info_close()
}

/// The whole info line as `add` emits it.
pub open spec fn info_line(m: Seq<char>, v: Seq<char>) -> Seq<char> {
    dash_prefix() + info_record(m, v)
}

/// Text that fits on the one-line info record: no line break that would
/// split the line.  Quotes and backslashes are fine; they are escaped.
pub open spec fn plain_text(s: Seq<char>) -> bool {
    forall|k: int| 0 <= k < s.len() ==> s[k] != '\n'
}

// ----------------------------------------------------------------------------
// Parsing the info line
// ----------------------------------------------------------------------------

/// Strips every repetition of the comment prefix, as trim_start_matches does.
pub open spec fn strip_dashes(l: Seq<char>) -> Seq<char>
    decreases l.len(),
{
    if l.len() >= 3 && l.take(3) == dash_prefix() {
        strip_dashes(l.skip(3))
    } else {
        l
    }
}

/// Parses the canonical info record; any other shape yields None.
pub open spec fn parse_record(l: Seq<char>) -> Option<(Seq<char>, Seq<char>)> {
    if starts_with(l, info_open()) {
        let r1 = l.skip(info_open().len() as int);
        let q1 = field_break(r1);
        if q1 < r1.len() {
            let m = unescape_text(r1.take(q1 as int));
            let r2 = r1.skip(q1 as int);
            if starts_with(r2, info_mid()) {
                let r3 = r2.skip(info_mid().len() as int);
                let q2 = field_break(r3);
                if q2 < r3.len() {
                    let v = unescape_text(r3.take(q2 as int));
                    if r3.skip(q2 as int) == info_close() {
                        Some((m, v))
                    } else {
                        None
                    }
                } else {
                    None
                }
            } else {
                None
            }
        } else {
            None
        }
    } else {
        None
    }
}

/// What the line after an opening marker names, if it is a canonical record.
pub open spec fn parse_info(l: Seq<char>) -> Option<(Seq<char>, Seq<char>)> {
    parse_record(strip_dashes(l))
}

// ----------------------------------------------------------------------------
// Scanning blocks, line by line
// ----------------------------------------------------------------------------

/// The first position at or after i whose line trims to the marker, or the length.
pub open spec fn next_marker(ls: Seq<Seq<char>>, i: nat) -> nat
    decreases ls.len() - i,
{
    if i < ls.len() {
        if trim_spec(ls[i as int]) == marker() {
            i
        } else {
            next_marker(ls, i + 1)
        }
    } else {
        ls.len()
    }
}

/// Whether the lines carry a block recorded for exactly this (mod, version).
pub open spec fn check_lines(ls: Seq<Seq<char>>, m: Seq<char>, v: Seq<char>) -> bool
    decreases ls.len(),
{
    if ls.len() == 0 {
        false
    } else if trim_spec(ls[0]) == marker() {
        if ls.len() == 1 {
            false
        } else if parse_info(ls[1]) == Some((m, v)) {
            true
        } else {
            let e = next_marker(ls, 2);
            if 2 <= e && e + 1 <= ls.len() {
                check_lines(ls.skip(e as int + 1), m, v)
            } else {
                false
            }
        }
    } else {
        check_lines(ls.drop_first(), m, v)
    }
}

/// The lines with every block recorded for (mod, version) excised; all other
/// lines, other mods' blocks included, are kept as they stand.
pub open spec fn remove_lines(ls: Seq<Seq<char>>, m: Seq<char>, v: Seq<char>) -> Seq<Seq<char>>
    decreases ls.len(),
{
    if ls.len() == 0 {
        Seq::empty()
    } else if trim_spec(ls[0]) == marker() {
        if ls.len() == 1 {
            Seq::empty()
        } else {
            let e = next_marker(ls, 2);
            if parse_info(ls[1]) == Some((m, v)) {
                if 2 <= e && e + 1 <= ls.len() {
                    remove_lines(ls.skip(e as int + 1), m, v)
                } else {
                    Seq::empty()
                }
            } else {
                if 2 <= e && e + 1 <= ls.len() {
                    ls.take(e as int + 1) + remove_lines(ls.skip(e as int + 1), m, v)
                } else {
                    ls
                }
            }
        }
    } else {
        seq![ls[0]] + remove_lines(ls.drop_first(), m, v)
    }
}

// ----------------------------------------------------------------------------
// The string-level specifications of the three operations
// ----------------------------------------------------------------------------

/// What `add_lua_patch` returns: the trimmed content, a blank separator line,
/// and the new block appended at end of file.
pub open spec fn add_spec(s: Seq<char>, m: Seq<char>, v: Seq<char>, p: Seq<char>) -> Seq<char> {
    trim_end_spec(s) + "\n\n"@ + marker() + "\n"@ + info_line(m, v) + "\n"@ + trim_spec(p) + "\n"@
        + marker()
}

/// What `check_lua_patch` returns.
pub open spec fn check_spec(s: Seq<char>, m: Seq<char>, v: Seq<char>) -> bool {
    check_lines(lines_of(s), m, v)
}

/// What `remove_lua_patch` returns: the kept lines, with the input's terminal
/// line break preserved so that non-excised content survives byte for byte.
pub open spec fn remove_spec(s: Seq<char>, m: Seq<char>, v: Seq<char>) -> Seq<char> {
    let kept = remove_lines(lines_of(s), m, v);
    if s.len() > 0 && s.last() == '\n' {
        if kept.len() == 0 {
            Seq::empty()
        } else {
            join_lines(kept) + seq!['\n']
        }
    } else {
        join_lines(kept)
    }
}

// ----------------------------------------------------------------------------
// Executable scanning
// ----------------------------------------------------------------------------

/// Proof that a scan that stopped at j pins next_marker down exactly.
proof fn lemma_next_marker_at(ls: Seq<Seq<char>>, i: nat, j: nat)
    requires
        i <= j <= ls.len(),
        forall|k: int| i <= k < j ==> trim_spec(#[trigger] ls[k]) != marker(),
        j == ls.len() || trim_spec(ls[j as int]) == marker(),
    ensures
        next_marker(ls, i) == j,
    decreases j - i,
{
    if i < j {
        lemma_next_marker_at(ls, i + 1, j);
    }
}

/// Bounds that every use of next_marker needs.
proof fn lemma_next_marker_bounds(ls: Seq<Seq<char>>, i: nat)
    ensures
        i <= next_marker(ls, i) || next_marker(ls, i) == ls.len(),
        next_marker(ls, i) <= ls.len(),
        next_marker(ls, i) < ls.len() ==> trim_spec(ls[next_marker(ls, i) as int]) == marker(),
        forall|k: int|
            i <= k < next_marker(ls, i) ==> trim_spec(#[trigger] ls[k]) != marker(),
    decreases ls.len() - i,
{
    if i < ls.len() && trim_spec(ls[i as int]) != marker() {
        lemma_next_marker_bounds(ls, i + 1);
    }
}

/// Whether this line trims to the marker line.
fn line_is_marker(l: &str) -> (r: bool)
    ensures
        r == (trim_spec(l@) == marker()),
{
    let t = trim_str(l);
    str_eq(t.as_str(), marker_str())
}

/// Where the first unescaped quote of the field stands.
fn field_scan(s: &str) -> (r: usize)
    ensures
        r == field_break(s@),
        r <= s@.len(),
{
    let len = s.unicode_len();
    let mut i: usize = 0;
    proof {
        assert(s@.skip(0) =~= s@);
    }
    while i < len
        invariant
            0 <= i <= len,
            len == s@.len(),
            field_break(s@) == i + field_break(s@.skip(i as int)),
        decreases len - i,
    {
        let c = s.get_char(i);
        proof {
            assert(s@.skip(i as int)[0] == s@[i as int]);
        }
        if c == '"' {
            proof {
                assert(field_break(s@.skip(i as int)) == 0);
            }
            return i;
        }
        if c == '\\' {
            if i + 1 >= len {
                proof {
                    assert(s@.skip(i as int).len() == 1);
                    assert(field_break(s@.skip(i as int)) == 1);
                }
                return len;
            }
            proof {
                assert(s@.skip(i as int).len() >= 2);
                assert(s@.skip(i as int).skip(2) =~= s@.skip(i as int + 2));
            }
            i = i + 2;
        } else {
            proof {
                assert(s@.skip(i as int).drop_first() =~= s@.skip(i as int + 1));
            }
            i = i + 1;
        }
    }
    proof {
        assert(s@.skip(len as int) =~= Seq::<char>::empty());
    }
    len
}

/// The field content with every escape applied, as `add` would write it.
fn escape_str(s: &str) -> (r: String)
    ensures
        r@ == escape_text(s@),
    decreases s@.len(),
{
    let len = s.unicode_len();
    if len == 0 {
        proof {
            assert(escape_text(s@) =~= Seq::<char>::empty());
        }
        String::new()
    } else {
        let c = s.get_char(0);
        let mut r = String::new();
        if c == '"' || c == '\\' {
            push_char(&mut r, '\\');
        }
        push_char(&mut r, c);
        proof {
            assert(r@ =~= escape_char(s@[0]));
        }
        let rest = escape_str(s.substring_char(1, len));
        proof {
            assert(s@.subrange(1, len as int) =~= s@.drop_first());
        }
        r.append(rest.as_str());
        proof {
            assert(r@ == escape_char(s@[0]) + escape_text(s@.drop_first()));
        }
        r
    }
}

/// The escaped field read back.
fn unescape_str(s: &str) -> (r: String)
    ensures
        r@ == unescape_text(s@),
    decreases s@.len(),
{
    let len = s.unicode_len();
    if len == 0 {
        proof {
            assert(unescape_text(s@) =~= Seq::<char>::empty());
        }
        String::new()
    } else {
        let c = s.get_char(0);
        if c == '\\' && len >= 2 {
            let mut r = String::new();
            push_char(&mut r, s.get_char(1));
            proof {
                assert(r@ =~= seq![s@[1]]);
            }
            let rest = unescape_str(s.substring_char(2, len));
            proof {
                assert(s@.subrange(2, len as int) =~= s@.skip(2));
            }
            r.append(rest.as_str());
            proof {
                assert(r@ == seq![s@[1]] + unescape_text(s@.skip(2)));
            }
            r
        } else {
            let mut r = String::new();
            push_char(&mut r, c);
            proof {
                assert(r@ =~= seq![s@[0]]);
            }
            let rest = unescape_str(s.substring_char(1, len));
            proof {
                assert(s@.subrange(1, len as int) =~= s@.drop_first());
            }
            r.append(rest.as_str());
            proof {
                assert(r@ == seq![s@[0]] + unescape_text(s@.drop_first()));
            }
            r
        }
    }
}

/// The executable counterpart of strip_dashes + parse_record.
pub fn parse_info_line(l: &str) -> (r: Option<(String, String)>)
    ensures
        match r {
            Some((m, v)) => parse_info(l@) == Some((m@, v@)),
            None => parse_info(l@) is None,
        },
    decreases l@.len(),
{
    proof {
        reveal_strlit("-- ");
    }
    if str_starts_with(l, "-- ") && l.unicode_len() >= 3 {
        proof {
            assert(l@.take(3) == "-- "@);
            assert(dash_prefix() == "-- "@);
        }
        let rest = l.substring_char(3, l.unicode_len());
        proof {
            assert(rest@ =~= l@.skip(3));
        }
        let r = parse_info_line(rest);
        proof {
            assert(strip_dashes(l@) == strip_dashes(l@.skip(3)));
        }
        r
    } else {
        proof {
            assert(!(l@.len() >= 3 && l@.take(3) == dash_prefix())) by {
                if l@.len() >= 3 {
                    assert(starts_with(l@, "-- "@) == (l@.take(3) == "-- "@));
                }
            }
            assert(strip_dashes(l@) == l@);
        }
        parse_record_str(l)
    }
}

/// Parses the canonical `{"mod_name":"...","version":"..."}` record.
fn parse_record_str(l: &str) -> (r: Option<(String, String)>)
    ensures
        match r {
            Some((m, v)) => parse_record(l@) == Some((m@, v@)),
            None => parse_record(l@) is None,
        },
{
    let open = "{\"mod_name\":\"";
    let mid = "\",\"version\":\"";
    let close = "\"}";
    proof {
        reveal_strlit("{\"mod_name\":\"");
        reveal_strlit("\",\"version\":\"");
        reveal_strlit("\"}");
    }
    if !str_starts_with(l, open) {
        return None;
    }
    let olen = open.unicode_len();
    let llen = l.unicode_len();
    let r1 = l.substring_char(olen, llen);
    proof {
        assert(r1@ =~= l@.skip(olen as int));
    }
    let r1len = r1.unicode_len();
    let q1 = field_scan(r1);
    if q1 >= r1len {
        return None;
    }
    let m = unescape_str(r1.substring_char(0, q1));
    proof {
        assert(r1@.subrange(0, q1 as int) =~= r1@.take(q1 as int));
    }
    let r2 = r1.substring_char(q1, r1len);
    proof {
        assert(r2@ =~= r1@.skip(q1 as int));
    }
    if !str_starts_with(r2, mid) {
        return None;
    }
    let mlen = mid.unicode_len();
    let r2len = r2.unicode_len();
    let r3 = r2.substring_char(mlen, r2len);
    proof {
        assert(r3@ =~= r2@.skip(mlen as int));
    }
    let r3len = r3.unicode_len();
    let q2 = field_scan(r3);
    if q2 >= r3len {
        return None;
    }
    let v = unescape_str(r3.substring_char(0, q2));
    proof {
        assert(r3@.subrange(0, q2 as int) =~= r3@.take(q2 as int));
    }
    let tail = r3.substring_char(q2, r3len);
    proof {
        assert(tail@ =~= r3@.skip(q2 as int));
    }
    if str_eq(tail, close) {
        Some((m, v))
    } else {
        None
    }
}

// ----------------------------------------------------------------------------
// The three public operations
// ----------------------------------------------------------------------------

/// Whether the content already carries a patch block for this (mod, version).
pub fn check_lua_patch(content: &str, mod_name: &str, version: &str) -> (r: bool)
    ensures
        r == check_spec(content@, mod_name@, version@),
{
    let lines = split_lines(content);
    let n = lines.len();
    let ghost full = line_views(lines@);
    let mut i: usize = 0;
    proof {
        assert(full.skip(0) =~= full);
    }
    while i < n
        invariant
            0 <= i <= n,
            n == lines@.len(),
            full == line_views(lines@),
            full == lines_of(content@),
            check_spec(content@, mod_name@, version@) == check_lines(
                full.skip(i as int),
                mod_name@,
                version@,
            ),
        decreases n - i,
    {
        let ghost rest = full.skip(i as int);
        if line_is_marker(lines[i].as_str()) {
            if i + 1 >= n {
                proof {
                    assert(rest.len() == 1);
                }
                return false;
            }
            let matched = match parse_info_line(lines[i + 1].as_str()) {
                Some((m, v)) => str_eq(m.as_str(), mod_name) && str_eq(v.as_str(), version),
                None => false,
            };
            proof {
                assert(rest[0] == full[i as int]);
                assert(rest[1] == full[i as int + 1]);
            }
            if matched {
                return true;
            }
            // skip the rest of this block, through its closing marker
            let mut j = i + 2;
            while j < n && !line_is_marker(lines[j].as_str())
                invariant
                    i + 2 <= j <= n,
                    n == lines@.len(),
                    full == line_views(lines@),
                    forall|k: int|
                        i + 2 <= k < j ==> trim_spec(#[trigger] full[k]) != marker(),
                decreases n - j,
            {
                j = j + 1;
            }
            proof {
                assert(forall|k: int|
                    2 <= k < j - i ==> trim_spec(#[trigger] rest[k]) != marker());
                assert(j < n ==> trim_spec(rest[j - i]) == marker());
                lemma_next_marker_at(rest, 2, (j - i) as nat);
            }
            if j >= n {
                proof {
                    assert(next_marker(rest, 2) == rest.len());
                }
                return false;
            }
            proof {
                assert(full.skip(j as int + 1) =~= rest.skip(j - i + 1));
            }
            i = j + 1;
        } else {
            proof {
                assert(rest.drop_first() =~= full.skip(i as int + 1));
            }
            i = i + 1;
        }
    }
    proof {
        assert(full.skip(n as int) =~= Seq::<Seq<char>>::empty());
    }
    false
}

/// Appends a new patch block for (mod, version) at end of file.  The caller
/// consults check_lua_patch first; add itself always appends.
pub fn add_lua_patch(content: &str, mod_name: &str, version: &str, patch: &str) -> (r: String)
    ensures
        r@ == add_spec(content@, mod_name@, version@, patch@),
{
    let mut r = trim_end_str(content);
    r.append("\n\n");
    r.append(marker_str());
    r.append("\n");
    r.append("-- ");
    r.append("{\"mod_name\":\"");
    let em = escape_str(mod_name);
    r.append(em.as_str());
    r.append("\",\"version\":\"");
    let ev = escape_str(version);
    r.append(ev.as_str());
    r.append("\"}");
    r.append("\n");
    let t = trim_str(patch);
    r.append(t.as_str());
    r.append("\n");
    r.append(marker_str());
    proof {
        assert(r@ =~= add_spec(content@, mod_name@, version@, patch@));
    }
    r
}

/// Rebuilds the content with every block for exactly (mod, version) excised;
/// all other lines, other mods' blocks included, are kept byte for byte.
pub fn remove_lua_patch(content: &str, mod_name: &str, version: &str) -> (r: Result<
    String,
    ModError,
>)
    ensures
        r is Ok,
        r matches Ok(out) ==> out@ == remove_spec(content@, mod_name@, version@),
{
    let lines = split_lines(content);
    let n = lines.len();
    let ghost full = line_views(lines@);
    let mut out: Vec<String> = Vec::new();
    let mut i: usize = 0;
    proof {
        assert(full.skip(0) =~= full);
        assert(line_views(out@) =~= Seq::<Seq<char>>::empty());
    }
    while i < n
        invariant
            0 <= i <= n,
            n == lines@.len(),
            full == line_views(lines@),
            full == lines_of(content@),
            remove_lines(full, mod_name@, version@) =~= line_views(out@) + remove_lines(
                full.skip(i as int),
                mod_name@,
                version@,
            ),
        decreases n - i,
    {
        let ghost rest = full.skip(i as int);
        let ghost out0 = line_views(out@);
        if line_is_marker(lines[i].as_str()) {
            if i + 1 >= n {
                proof {
                    assert(rest.len() == 1);
                    assert(remove_lines(rest, mod_name@, version@) =~= Seq::<Seq<char>>::empty());
                }
                i = i + 1;
                continue;
            }
            let matched = match parse_info_line(lines[i + 1].as_str()) {
                Some((m, v)) => str_eq(m.as_str(), mod_name) && str_eq(v.as_str(), version),
                None => false,
            };
            proof {
                assert(rest[0] == full[i as int]);
                assert(rest[1] == full[i as int + 1]);
            }
            // find the closing marker of this block
            let mut j = i + 2;
            while j < n && !line_is_marker(lines[j].as_str())
                invariant
                    i + 2 <= j <= n,
                    n == lines@.len(),
                    full == line_views(lines@),
                    forall|k: int|
                        i + 2 <= k < j ==> trim_spec(#[trigger] full[k]) != marker(),
                decreases n - j,
            {
                j = j + 1;
            }
            proof {
                assert(forall|k: int|
                    2 <= k < j - i ==> trim_spec(#[trigger] rest[k]) != marker());
                assert(j < n ==> trim_spec(rest[j - i]) == marker());
                lemma_next_marker_at(rest, 2, (j - i) as nat);
            }
            if matched {
                if j >= n {
                    proof {
                        assert(next_marker(rest, 2) == rest.len());
                        assert(remove_lines(rest, mod_name@, version@) =~= Seq::<
                            Seq<char>,
                        >::empty());
                    }
                    i = n;
                } else {
                    proof {
                        assert(full.skip(j as int + 1) =~= rest.skip(j - i + 1));
                    }
                    i = j + 1;
                }
            } else {
                // keep the whole foreign block as it stands
                let mut k = i;
                let stop = if j < n {
                    j + 1
                } else {
                    n
                };
                while k < stop
                    invariant
                        i <= k <= stop <= n,
                        n == lines@.len(),
                        full == line_views(lines@),
                        line_views(out@) =~= out0 + full.subrange(i as int, k as int),
                    decreases stop - k,
                {
                    let line = lines[k].clone();
                    proof {
                        assert(line_views(out@.push(line)) =~= line_views(out@) + seq![line@]);
                        assert(out0 + full.subrange(i as int, k as int) + seq![full[k as int]]
                            =~= out0 + full.subrange(i as int, k as int + 1));
                    }
                    out.push(line);
                    k = k + 1;
                }
                if j >= n {
                    proof {
                        assert(next_marker(rest, 2) == rest.len());
                        assert(full.subrange(i as int, n as int) =~= rest);
                        assert(remove_lines(rest, mod_name@, version@) == rest);
                        assert(line_views(out@) + remove_lines(
                            full.skip(n as int),
                            mod_name@,
                            version@,
                        ) =~= out0 + rest) by {
                            assert(full.skip(n as int) =~= Seq::<Seq<char>>::empty());
                            assert(remove_lines(Seq::<Seq<char>>::empty(), mod_name@, version@)
                                =~= Seq::<Seq<char>>::empty());
                        }
                    }
                    i = n;
                } else {
                    proof {
                        assert(full.subrange(i as int, j as int + 1) =~= rest.take(j - i + 1));
                        assert(full.skip(j as int + 1) =~= rest.skip(j - i + 1));
                        assert(remove_lines(rest, mod_name@, version@) == rest.take(j - i + 1)
                            + remove_lines(rest.skip(j - i + 1), mod_name@, version@));
                    }
                    i = j + 1;
                }
            }
        } else {
            let line = lines[i].clone();
            proof {
                assert(rest.drop_first() =~= full.skip(i as int + 1));
                assert(line_views(out@.push(line)) =~= line_views(out@) + seq![line@]);
                assert(remove_lines(rest, mod_name@, version@) == seq![rest[0]] + remove_lines(
                    rest.drop_first(),
                    mod_name@,
                    version@,
                ));
            }
            out.push(line);
            i = i + 1;
        }
    }
    proof {
        assert(full.skip(n as int) =~= Seq::<Seq<char>>::empty());
        assert(remove_lines(Seq::<Seq<char>>::empty(), mod_name@, version@) =~= Seq::<
            Seq<char>,
        >::empty());
        assert(line_views(out@) =~= remove_lines(full, mod_name@, version@));
    }
    let joined = join_lines_vec(&out);
    let clen = content.unicode_len();
    if clen > 0 && content.get_char(clen - 1) == '\n' {
        if out.len() == 0 {
            proof {
                assert(line_views(out@).len() == 0);
            }
            Ok(String::new())
        } else {
            proof {
                reveal_strlit("\n");
                assert(line_views(out@).len() > 0);
                assert(joined@ + "\n"@ =~= join_lines(line_views(out@)) + seq!['\n']);
            }
            Ok(joined.concat("\n"))
        }
    } else {
        Ok(joined)
    }
}

/// What the caller-facing guarded add returns: the content unchanged when the
/// block is already present, else the content with the block appended.
pub open spec fn apply_spec(s: Seq<char>, m: Seq<char>, v: Seq<char>, p: Seq<char>) -> Seq<char> {
    if check_spec(s, m, v) {
        s
    } else {
        add_spec(s, m, v, p)
    }
}

/// Adds the block for (mod, version) unless it is already present: the
/// check-then-add composition that callers patching a file perform.
pub fn apply_lua_patch(content: &str, mod_name: &str, version: &str, patch: &str) -> (r: String)
    ensures
        r@ == apply_spec(content@, mod_name@, version@, patch@),
{
    if check_lua_patch(content, mod_name, version) {
        String::from_str(content)
    } else {
        add_lua_patch(content, mod_name, version, patch)
    }
}

// ----------------------------------------------------------------------------
// The round-trip and idempotence laws
// ----------------------------------------------------------------------------

/// The lines of the block that `add` appends for (m, v) with body p.
pub open spec fn block_lines(m: Seq<char>, v: Seq<char>, p: Seq<char>) -> Seq<Seq<char>> {
    seq![marker(), info_line(m, v)] + complete_lines(trim_spec(p)) + seq![marker()]
}

/// Lines whose marker-delimited blocks are all complete and none of which is
/// recorded for (m, v): content to which a fresh block for (m, v) may be
/// added and removed again without touching anything else.
pub open spec fn blocks_clean(ls: Seq<Seq<char>>, m: Seq<char>, v: Seq<char>) -> bool
    decreases ls.len(),
{
    if ls.len() == 0 {
        true
    } else if trim_spec(ls[0]) == marker() {
        ls.len() >= 2 && parse_info(ls[1]) != Some((m, v)) && {
            let e = next_marker(ls, 2);
            2 <= e && e + 1 <= ls.len() && blocks_clean(ls.skip(e as int + 1), m, v)
        }
    } else {
        blocks_clean(ls.drop_first(), m, v)
    }
}

/// No line of the patch body may read as a marker, or it would close the
/// block early.
pub open spec fn body_lines_free(p: Seq<char>) -> bool {
    forall|k: int|
        0 <= k < complete_lines(trim_spec(p)).len() ==> trim_spec(
            #[trigger] complete_lines(trim_spec(p))[k],
        ) != marker()
}

/// Content in the shape the round trip preserves: it ends with exactly one
/// line break after its last non-whitespace character.
pub open spec fn break_terminated(s: Seq<char>) -> bool {
    s == trim_end_spec(s) + seq!['\n']
}

proof fn lemma_marker_facts()
    ensures
        marker().len() > 0,
        forall|k: int| 0 <= k < marker().len() ==> marker()[k] != '\n',
        trim_spec(marker()) == marker(),
{
    reveal_strlit("-- This was added automatically by BorderZone Mod Manager. DO NOT EDIT! --");
    let m = marker();
    assert(m.len() > 0);
    assert(!is_space(m[m.len() - 1]));
    lemma_space_suffix_at(m, m.len() as int);
    assert(trim_end_spec(m) =~= m);
    assert(!is_space(m[0]));
    lemma_space_prefix_at(trim_end_spec(m), 0);
    assert(trim_spec(m) =~= m);
}

/// Escaping introduces only backslashes, so a break-free text stays
/// break-free, and a break-free escape ends on a field boundary.
proof fn lemma_escape_no_newline(m: Seq<char>)
    requires
        plain_text(m),
    ensures
        forall|k: int|
            0 <= k < escape_text(m).len() ==> #[trigger] escape_text(m)[k] != '\n',
    decreases m.len(),
{
    if m.len() > 0 {
        assert(plain_text(m.drop_first())) by {
            assert(forall|k: int|
                0 <= k < m.drop_first().len() ==> #[trigger] m.drop_first()[k] == m[k + 1]);
        }
        lemma_escape_no_newline(m.drop_first());
        let e = escape_text(m);
        let h = escape_char(m[0]);
        let t = escape_text(m.drop_first());
        assert(e == h + t);
        assert(forall|k: int| 0 <= k < h.len() ==> h[k] != '\n');
        assert(forall|k: int|
            0 <= k < e.len() ==> #[trigger] e[k] == if k < h.len() {
                h[k]
            } else {
                t[k - h.len()]
            });
    }
}

/// An escaped field followed by a quote scans exactly to its own end and
/// reads back as the text that was escaped.
proof fn lemma_field_break_escape(m: Seq<char>, tail: Seq<char>)
    requires
        tail.len() > 0,
        tail[0] == '"',
    ensures
        field_break(escape_text(m) + tail) == escape_text(m).len(),
        unescape_text((escape_text(m) + tail).take(escape_text(m).len() as int)) == m,
    decreases m.len(),
{
    let e = escape_text(m);
    let s = e + tail;
    if m.len() == 0 {
        assert(e =~= Seq::<char>::empty());
        assert(s =~= tail);
        assert(field_break(tail) == 0);
        assert(s.take(0) =~= Seq::<char>::empty());
        assert(unescape_text(Seq::<char>::empty()) =~= Seq::<char>::empty());
        assert(m =~= Seq::<char>::empty());
    } else {
        let c = m[0];
        lemma_field_break_escape(m.drop_first(), tail);
        let e2 = escape_text(m.drop_first());
        assert(e == escape_char(c) + e2);
        let taken = s.take(e.len() as int);
        if c == '"' || c == '\\' {
            assert(s[0] == '\\');
            assert(s.len() >= 2);
            assert(s.skip(2) =~= e2 + tail);
            assert(field_break(s) == 2 + field_break(e2 + tail));
            assert(taken[0] == '\\');
            assert(taken[1] == c);
            assert(taken.len() >= 2);
            assert(taken.skip(2) =~= (e2 + tail).take(e2.len() as int));
            assert(unescape_text(taken) == seq![c] + unescape_text(
                (e2 + tail).take(e2.len() as int),
            ));
            assert(unescape_text(taken) =~= m);
        } else {
            assert(s[0] == c);
            assert(c != '"' && c != '\\');
            assert(s.drop_first() =~= e2 + tail);
            assert(field_break(s) == 1 + field_break(e2 + tail));
            assert(taken[0] == c);
            assert(taken.drop_first() =~= (e2 + tail).take(e2.len() as int));
            assert(unescape_text(taken) == seq![c] + unescape_text(
                (e2 + tail).take(e2.len() as int),
            ));
            assert(unescape_text(taken) =~= m);
        }
    }
}

proof fn lemma_info_facts(m: Seq<char>, v: Seq<char>)
    requires
        plain_text(m),
        plain_text(v),
    ensures
        forall|k: int|
            0 <= k < info_line(m, v).len() ==> #[trigger] info_line(m, v)[k] != '\n',
        parse_info(info_line(m, v)) == Some((m, v)),
{
    reveal_strlit("-- ");
    reveal_strlit("{\"mod_name\":\"");
    reveal_strlit("\",\"version\":\"");
    reveal_strlit("\"}");
    let dp = dash_prefix();
    let po = info_open();
    let pm = info_mid();
    let pc = info_close();
    let em = escape_text(m);
    let ev = escape_text(v);
    let rec = info_record(m, v);
    let line = info_line(m, v);
    assert(dp.len() == 3);
    assert(po.len() == 13);
    assert(pm.len() == 13);
    assert(pc.len() == 2);
    assert(forall|k: int| 0 <= k < dp.len() ==> dp[k] != '\n');
    assert(forall|k: int| 0 <= k < po.len() ==> po[k] != '\n');
    assert(forall|k: int| 0 <= k < pm.len() ==> pm[k] != '\n');
    assert(forall|k: int| 0 <= k < pc.len() ==> pc[k] != '\n');
    lemma_escape_no_newline(m);
    lemma_escape_no_newline(v);
    // no line break anywhere on the line
    assert forall|k: int| 0 <= k < line.len() implies #[trigger] line[k] != '\n' by {
        if k < 3 {
            assert(line[k] == dp[k]);
        } else {
            let k1 = k - 3;
            assert(line[k] == rec[k1]);
            if k1 < 13 {
                assert(rec[k1] == po[k1]);
            } else if k1 < 13 + em.len() {
                assert(rec[k1] == em[k1 - 13]);
            } else if k1 < 13 + em.len() + 13 {
                assert(rec[k1] == pm[k1 - 13 - em.len()]);
            } else if k1 < 13 + em.len() + 13 + ev.len() {
                assert(rec[k1] == ev[k1 - 26 - em.len()]);
            } else {
                assert(rec[k1] == pc[k1 - 26 - em.len() - ev.len()]);
            }
        }
    }
    // stripping the dash prefix exposes the record and nothing more
    assert(line.take(3) =~= dp);
    assert(line.skip(3) =~= rec);
    assert(strip_dashes(line) == strip_dashes(rec));
    assert(rec[0] == po[0]);
    assert(rec.take(3)[0] == rec[0]);
    assert(rec.take(3) != dp);
    assert(strip_dashes(rec) == rec);
    // the record parses back to exactly (m, v)
    assert(rec.take(13) =~= po);
    assert(starts_with(rec, po));
    let r1 = rec.skip(13);
    assert(r1 =~= em + (pm + ev + pc));
    assert((pm + ev + pc)[0] == pm[0]);
    lemma_field_break_escape(m, pm + ev + pc);
    let q1 = field_break(r1);
    assert(q1 == em.len());
    assert(q1 < r1.len());
    assert(r1.take(q1 as int) =~= (em + (pm + ev + pc)).take(em.len() as int));
    assert(unescape_text(r1.take(q1 as int)) == m);
    let r2 = r1.skip(q1 as int);
    assert(r2 =~= pm + ev + pc);
    assert(r2.take(13) =~= pm);
    assert(starts_with(r2, pm));
    let r3 = r2.skip(13);
    assert(r3 =~= ev + pc);
    assert(pc[0] == '"');
    lemma_field_break_escape(v, pc);
    let q2 = field_break(r3);
    assert(q2 == ev.len());
    assert(q2 < r3.len());
    assert(r3.take(q2 as int) =~= (ev + pc).take(ev.len() as int));
    assert(unescape_text(r3.take(q2 as int)) == v);
    assert(r3.skip(q2 as int) =~= pc);
    assert(parse_record(rec) == Some((m, v)));
}

/// Clean content stays clean when clean content follows it.
proof fn lemma_blocks_clean_concat(a: Seq<Seq<char>>, b: Seq<Seq<char>>, m: Seq<char>, v: Seq<char>)
    requires
        blocks_clean(a, m, v),
        blocks_clean(b, m, v),
    ensures
        blocks_clean(a + b, m, v),
    decreases a.len(),
{
    let s = a + b;
    if a.len() == 0 {
        assert(s =~= b);
    } else if trim_spec(a[0]) == marker() {
        let e = next_marker(a, 2);
        lemma_next_marker_bounds(a, 2);
        assert(s[0] == a[0]);
        assert(s[1] == a[1]);
        assert forall|k: int| 2 <= k < e implies trim_spec(#[trigger] s[k]) != marker() by {
            assert(s[k] == a[k]);
        }
        assert(s[e as int] == a[e as int]);
        lemma_next_marker_at(s, 2, e);
        assert(s.skip(e as int + 1) =~= a.skip(e as int + 1) + b);
        lemma_blocks_clean_concat(a.skip(e as int + 1), b, m, v);
    } else {
        assert(s[0] == a[0]);
        assert(s.drop_first() =~= a.drop_first() + b);
        lemma_blocks_clean_concat(a.drop_first(), b, m, v);
    }
}

/// Removal walks over clean content without changing a line of it.
proof fn lemma_remove_clean(a: Seq<Seq<char>>, b: Seq<Seq<char>>, m: Seq<char>, v: Seq<char>)
    requires
        blocks_clean(a, m, v),
    ensures
        remove_lines(a + b, m, v) == a + remove_lines(b, m, v),
    decreases a.len(),
{
    let s = a + b;
    if a.len() == 0 {
        assert(s =~= b);
        assert(a + remove_lines(b, m, v) =~= remove_lines(b, m, v));
    } else if trim_spec(a[0]) == marker() {
        let e = next_marker(a, 2);
        lemma_next_marker_bounds(a, 2);
        assert(s[0] == a[0]);
        assert(s[1] == a[1]);
        assert forall|k: int| 2 <= k < e implies trim_spec(#[trigger] s[k]) != marker() by {
            assert(s[k] == a[k]);
        }
        assert(s[e as int] == a[e as int]);
        lemma_next_marker_at(s, 2, e);
        assert(s.take(e as int + 1) =~= a.take(e as int + 1));
        assert(s.skip(e as int + 1) =~= a.skip(e as int + 1) + b);
        lemma_remove_clean(a.skip(e as int + 1), b, m, v);
        assert(remove_lines(s, m, v) =~= a + remove_lines(b, m, v));
    } else {
        assert(s[0] == a[0]);
        assert(s.drop_first() =~= a.drop_first() + b);
        lemma_remove_clean(a.drop_first(), b, m, v);
        assert(remove_lines(s, m, v) =~= a + remove_lines(b, m, v));
    }
}

/// The check walks over clean content without finding anything.
proof fn lemma_check_clean(a: Seq<Seq<char>>, b: Seq<Seq<char>>, m: Seq<char>, v: Seq<char>)
    requires
        blocks_clean(a, m, v),
    ensures
        check_lines(a + b, m, v) == check_lines(b, m, v),
    decreases a.len(),
{
    let s = a + b;
    if a.len() == 0 {
        assert(s =~= b);
    } else if trim_spec(a[0]) == marker() {
        let e = next_marker(a, 2);
        lemma_next_marker_bounds(a, 2);
        assert(s[0] == a[0]);
        assert(s[1] == a[1]);
        assert forall|k: int| 2 <= k < e implies trim_spec(#[trigger] s[k]) != marker() by {
            assert(s[k] == a[k]);
        }
        assert(s[e as int] == a[e as int]);
        lemma_next_marker_at(s, 2, e);
        assert(s.skip(e as int + 1) =~= a.skip(e as int + 1) + b);
        lemma_check_clean(a.skip(e as int + 1), b, m, v);
    } else {
        assert(s[0] == a[0]);
        assert(s.drop_first() =~= a.drop_first() + b);
        lemma_check_clean(a.drop_first(), b, m, v);
    }
}

/// A freshly appended block is found by the check and excised whole by
/// removal, leaving nothing behind.
proof fn lemma_block_fresh(m: Seq<char>, v: Seq<char>, p: Seq<char>)
    requires
        plain_text(m),
        plain_text(v),
        body_lines_free(p),
    ensures
        remove_lines(block_lines(m, v, p), m, v) == Seq::<Seq<char>>::empty(),
        check_lines(block_lines(m, v, p), m, v),
{
    lemma_marker_facts();
    lemma_info_facts(m, v);
    let bl = block_lines(m, v, p);
    let pl = complete_lines(trim_spec(p));
    lemma_lines_nonempty(trim_spec(p) + seq!['\n']);
    assert(bl[0] == marker());
    assert(bl[1] == info_line(m, v));
    assert(bl.len() == 3 + pl.len());
    assert forall|k: int| 2 <= k < 2 + pl.len() implies trim_spec(#[trigger] bl[k])
        != marker() by {
        assert(bl[k] == pl[k - 2]);
    }
    assert(bl[bl.len() - 1] == marker());
    lemma_next_marker_at(bl, 2, (bl.len() - 1) as nat);
    assert(parse_info(bl[1]) == Some((m, v)));
    assert(trim_spec(bl[0]) == marker());
    assert(next_marker(bl, 2) == bl.len() - 1);
    assert(bl.skip(bl.len() as int) =~= Seq::<Seq<char>>::empty());
    assert(remove_lines(Seq::<Seq<char>>::empty(), m, v) == Seq::<Seq<char>>::empty());
    assert(remove_lines(bl, m, v) == remove_lines(bl.skip((bl.len() - 1) as int + 1), m, v));
}

/// The lines of what `add` returns: the lines of the trimmed content, one blank
/// separator line, and the block.
proof fn lemma_add_lines(s: Seq<char>, m: Seq<char>, v: Seq<char>, p: Seq<char>)
    requires
        plain_text(m),
        plain_text(v),
    ensures
        lines_of(add_spec(s, m, v, p)) == complete_lines(trim_end_spec(s)) + seq![
            Seq::<char>::empty(),
        ] + block_lines(m, v, p),
{
    reveal_strlit("\n");
    reveal_strlit("\n\n");
    lemma_marker_facts();
    lemma_info_facts(m, v);
    let t = trim_end_spec(s);
    let mk = marker();
    let il = info_line(m, v);
    let pt = trim_spec(p);
    let r3 = pt + seq!['\n'] + mk;
    let r2 = il + seq!['\n'] + r3;
    let r1 = mk + seq!['\n'] + r2;
    let r0 = Seq::<char>::empty() + seq!['\n'] + r1;
    let whole = t + seq!['\n'] + r0;
    assert("\n\n"@ =~= seq!['\n', '\n']);
    assert("\n"@ =~= seq!['\n']);
    assert(whole =~= add_spec(s, m, v, p));
    lemma_lines_concat(t, r0);
    lemma_lines_concat(Seq::<char>::empty(), r1);
    lemma_lines_concat(mk, r2);
    lemma_lines_concat(il, r3);
    lemma_lines_concat(pt, mk);
    lemma_lines_single(Seq::<char>::empty());
    lemma_lines_single(mk);
    lemma_lines_single(il);
    lemma_lines_noterm(mk);
    assert(complete_lines(Seq::<char>::empty()) =~= seq![Seq::<char>::empty()]);
    assert(lines_of(add_spec(s, m, v, p)) =~= complete_lines(t) + seq![Seq::<char>::empty()]
        + block_lines(m, v, p));
}

/// The blank separator line between content and block is clean.
proof fn lemma_blank_clean(m: Seq<char>, v: Seq<char>)
    ensures
        blocks_clean(seq![Seq::<char>::empty()], m, v),
{
    lemma_marker_facts();
    let blank = seq![Seq::<char>::empty()];
    assert(trim_spec(Seq::<char>::empty()) =~= Seq::<char>::empty());
    assert(trim_spec(blank[0]) != marker());
    assert(blank.drop_first() =~= Seq::<Seq<char>>::empty());
    assert(blocks_clean(Seq::<Seq<char>>::empty(), m, v));
}

/// Clean content carries no block for (m, v), so the check reports none.
pub proof fn lemma_clean_has_no_block(s: Seq<char>, m: Seq<char>, v: Seq<char>)
    requires
        blocks_clean(lines_of(s), m, v),
    ensures
        !check_spec(s, m, v),
{
    lemma_check_clean(lines_of(s), Seq::empty(), m, v);
    assert(lines_of(s) + Seq::<Seq<char>>::empty() =~= lines_of(s));
    assert(check_lines(Seq::<Seq<char>>::empty(), m, v) == false);
}

/// Adding a block for (m, v) and then removing (m, v) restores the content
/// byte for byte: links between the marker lines of other mods' blocks, their
/// records, and every other line survive untouched.
pub proof fn lemma_patch_round_trip(s: Seq<char>, m: Seq<char>, v: Seq<char>, p: Seq<char>)
    requires
        break_terminated(s),
        blocks_clean(lines_of(s), m, v),
        plain_text(m),
        plain_text(v),
        body_lines_free(p),
    ensures
        remove_spec(add_spec(s, m, v, p), m, v) == s,
{
    lemma_marker_facts();
    lemma_add_lines(s, m, v, p);
    lemma_blank_clean(m, v);
    let t = trim_end_spec(s);
    let blank = seq![Seq::<char>::empty()];
    assert(s =~= t + seq!['\n']);
    assert(lines_of(s) == complete_lines(t));
    let prefix = complete_lines(t) + blank;
    lemma_blocks_clean_concat(complete_lines(t), blank, m, v);
    lemma_remove_clean(prefix, block_lines(m, v, p), m, v);
    lemma_block_fresh(m, v, p);
    assert(lines_of(add_spec(s, m, v, p)) =~= prefix + block_lines(m, v, p));
    assert(remove_lines(lines_of(add_spec(s, m, v, p)), m, v) =~= prefix);
    // the appended block ends with the marker, so the whole ends without a break
    assert(add_spec(s, m, v, p).last() == marker().last()) by {
        assert(marker().len() > 0);
    }
    assert(add_spec(s, m, v, p).last() != '\n');
    assert(add_spec(s, m, v, p).len() > 0);
    lemma_lines_nonempty(t + seq!['\n']);
    assert(prefix =~= complete_lines(t).push(Seq::<char>::empty()));
    lemma_join_lines_push(complete_lines(t), Seq::<char>::empty());
    lemma_join_complete(t);
    assert(join_lines(prefix) =~= t + seq!['\n']);
}

/// After a fresh add for (m, v), the check finds the block, so a second
/// guarded add changes nothing.
pub proof fn lemma_check_after_add(s: Seq<char>, m: Seq<char>, v: Seq<char>, p: Seq<char>)
    requires
        break_terminated(s),
        blocks_clean(lines_of(s), m, v),
        plain_text(m),
        plain_text(v),
        body_lines_free(p),
    ensures
        check_spec(add_spec(s, m, v, p), m, v),
{
    lemma_marker_facts();
    lemma_add_lines(s, m, v, p);
    lemma_blank_clean(m, v);
    let t = trim_end_spec(s);
    let blank = seq![Seq::<char>::empty()];
    let prefix = complete_lines(t) + blank;
    lemma_blocks_clean_concat(complete_lines(t), blank, m, v);
    lemma_check_clean(prefix, block_lines(m, v, p), m, v);
    lemma_block_fresh(m, v, p);
    assert(lines_of(add_spec(s, m, v, p)) =~= prefix + block_lines(m, v, p));
}

/// Removing a block that is not there changes nothing: on content whose
/// marker-delimited blocks are complete and none of which is recorded for
/// (m, v), removal returns the content byte for byte, terminal break and all.
pub proof fn lemma_remove_clean_identity(s: Seq<char>, m: Seq<char>, v: Seq<char>)
    requires
        blocks_clean(lines_of(s), m, v),
    ensures
        remove_spec(s, m, v) == s,
{
    lemma_remove_clean(lines_of(s), Seq::empty(), m, v);
    assert(lines_of(s) + Seq::<Seq<char>>::empty() =~= lines_of(s));
    assert(remove_lines(Seq::<Seq<char>>::empty(), m, v) == Seq::<Seq<char>>::empty());
    assert(remove_lines(lines_of(s), m, v) =~= lines_of(s));
    if s.len() == 0 {
        assert(lines_of(s) =~= Seq::<Seq<char>>::empty());
        assert(remove_spec(s, m, v) =~= s);
    } else if s.last() == '\n' {
        let x = s.drop_last();
        assert(s =~= x + seq!['\n']);
        assert(lines_of(s) == complete_lines(x));
        lemma_lines_nonempty(s);
        lemma_join_complete(x);
        assert(remove_spec(s, m, v) =~= s);
    } else {
        lemma_join_unterminated(s);
    }
}

/// Patching a file twice through the guarded add is the same as patching it
/// once: the second application sees the block and leaves the content alone.
pub proof fn lemma_apply_idempotent(s: Seq<char>, m: Seq<char>, v: Seq<char>, p: Seq<char>)
    requires
        break_terminated(s),
        blocks_clean(lines_of(s), m, v),
        plain_text(m),
        plain_text(v),
        body_lines_free(p),
    ensures
        apply_spec(apply_spec(s, m, v, p), m, v, p) == apply_spec(s, m, v, p),
{
    if !check_spec(s, m, v) {
        lemma_check_after_add(s, m, v, p);
    }
}

} // verus!
