use vstd::prelude::*;

verus! {

// ----------------------------------------------------------------------------
// Characters
// ----------------------------------------------------------------------------

/// The characters trimming recognizes: the Unicode White_Space set.
pub open spec fn is_space(c: char) -> bool {
    ||| c == ' '
    ||| ('\u{09}' <= c && c <= '\u{0D}')
    ||| c == '\u{85}'
    ||| c == '\u{A0}'
    ||| c == '\u{1680}'
    ||| ('\u{2000}' <= c && c <= '\u{200A}')
    ||| c == '\u{2028}'
    ||| c == '\u{2029}'
    ||| c == '\u{202F}'
    ||| c == '\u{205F}'
    ||| c == '\u{3000}'
}

pub fn char_is_space(c: char) -> (r: bool)
    ensures
        r == is_space(c),
{
    c == ' ' || ('\u{09}' <= c && c <= '\u{0D}') || c == '\u{85}' || c == '\u{A0}' || c
        == '\u{1680}' || ('\u{2000}' <= c && c <= '\u{200A}') || c == '\u{2028}' || c
        == '\u{2029}' || c == '\u{202F}' || c == '\u{205F}' || c == '\u{3000}'
}

/// Relies on String::push: appends exactly one character at the end of the string.
#[verifier::external_body]
pub(crate) fn push_char(s: &mut String, c: char)
    ensures
        final(s)@ == old(s)@ + seq![c],
{
    s.push(c);
}

// ----------------------------------------------------------------------------
// Trimming
// ----------------------------------------------------------------------------

/// How many whitespace characters the text starts with.
pub open spec fn space_prefix_len(s: Seq<char>) -> nat
    decreases s.len(),
{
    if s.len() > 0 && is_space(s[0]) {
        1 + space_prefix_len(s.drop_first())
    } else {
        0
    }
}

/// How many whitespace characters the text ends with.
pub open spec fn space_suffix_len(s: Seq<char>) -> nat
    decreases s.len(),
{
    if s.len() > 0 && is_space(s[s.len() - 1]) {
        1 + space_suffix_len(s.drop_last())
    } else {
        0
    }
}

/// The text without its trailing whitespace.
pub open spec fn trim_end_spec(s: Seq<char>) -> Seq<char> {
    s.take(s.len() - space_suffix_len(s))
}

/// The text without its leading whitespace.
pub open spec fn trim_start_spec(s: Seq<char>) -> Seq<char> {
    s.skip(space_prefix_len(s) as int)
}

/// The text without leading and trailing whitespace.
pub open spec fn trim_spec(s: Seq<char>) -> Seq<char> {
    trim_start_spec(trim_end_spec(s))
}

/// A boundary j with only whitespace at and after it, and a non-whitespace
/// character just before it, pins down the whitespace suffix exactly.
pub proof fn lemma_space_suffix_at(s: Seq<char>, j: int)
    requires
        0 <= j <= s.len(),
        forall|k: int| j <= k < s.len() ==> is_space(s[k]),
        j == 0 || !is_space(s[j - 1]),
    ensures
        space_suffix_len(s) == s.len() - j,
    decreases s.len(),
{
    if s.len() > 0 {
        if j == s.len() {
        } else {
            assert(is_space(s[s.len() - 1]));
            lemma_space_suffix_at(s.drop_last(), j);
        }
    }
}

/// The mirror image of lemma_space_suffix_at for the front of the text.
pub proof fn lemma_space_prefix_at(s: Seq<char>, i: int)
    requires
        0 <= i <= s.len(),
        forall|k: int| 0 <= k < i ==> is_space(s[k]),
        i == s.len() || !is_space(s[i]),
    ensures
        space_prefix_len(s) == i,
    decreases s.len(),
{
    if s.len() > 0 && is_space(s[0]) {
        assert(i > 0);
        lemma_space_prefix_at(s.drop_first(), i - 1);
    }
}

pub fn trim_end_str(s: &str) -> (r: String)
    ensures
        r@ == trim_end_spec(s@),
{
    let len = s.unicode_len();
    let mut j = len;
    while j > 0 && char_is_space(s.get_char(j - 1))
        invariant
            0 <= j <= len,
            len == s@.len(),
            forall|k: int| j <= k < len ==> is_space(s@[k]),
        decreases j,
    {
        j = j - 1;
    }
    proof {
        lemma_space_suffix_at(s@, j as int);
    }
    String::from_str(s.substring_char(0, j))
}

pub fn trim_str(s: &str) -> (r: String)
    ensures
        r@ == trim_spec(s@),
{
    let len = s.unicode_len();
    let mut j = len;
    while j > 0 && char_is_space(s.get_char(j - 1))
        invariant
            0 <= j <= len,
            len == s@.len(),
            forall|k: int| j <= k < len ==> is_space(s@[k]),
        decreases j,
    {
        j = j - 1;
    }
    proof {
        lemma_space_suffix_at(s@, j as int);
    }
    let mut i: usize = 0;
    while i < j && char_is_space(s.get_char(i))
        invariant
            0 <= i <= j <= len,
            len == s@.len(),
            forall|k: int| 0 <= k < i ==> is_space(s@[k]),
        decreases j - i,
    {
        i = i + 1;
    }
    proof {
        let t = trim_end_spec(s@);
        assert(t == s@.take(j as int));
        assert(forall|k: int| 0 <= k < i ==> is_space(t[k]));
        assert(i < j ==> !is_space(t[i as int]));
        lemma_space_prefix_at(t, i as int);
        assert(t.skip(i as int) =~= s@.subrange(i as int, j as int));
    }
    String::from_str(s.substring_char(i, j))
}

// ----------------------------------------------------------------------------
// Lines
// ----------------------------------------------------------------------------

/// The position of the first line break, or the length if there is none.
pub open spec fn line_break(s: Seq<char>) -> nat
    decreases s.len(),
{
    if s.len() == 0 {
        0
    } else if s[0] == '\n' {
        0
    } else {
        1 + line_break(s.drop_first())
    }
}

pub proof fn lemma_line_break(s: Seq<char>)
    ensures
        line_break(s) <= s.len(),
        forall|k: int| 0 <= k < line_break(s) ==> s[k] != '\n',
        line_break(s) < s.len() ==> s[line_break(s) as int] == '\n',
    decreases s.len(),
{
    if s.len() > 0 && s[0] != '\n' {
        lemma_line_break(s.drop_first());
        assert(forall|k: int|
            0 <= k < line_break(s) ==> #[trigger] s[k] == if k == 0 {
                s[0]
            } else {
                s.drop_first()[k - 1]
            });
    }
}

/// A position with no line break before it pins line_break down exactly.
pub proof fn lemma_line_break_at(s: Seq<char>, j: int)
    requires
        0 <= j <= s.len(),
        forall|k: int| 0 <= k < j ==> s[k] != '\n',
        j == s.len() || s[j] == '\n',
    ensures
        line_break(s) == j,
    decreases s.len(),
{
    if s.len() > 0 && s[0] != '\n' {
        assert(j > 0);
        lemma_line_break_at(s.drop_first(), j - 1);
    }
}

/// The text split at every line break; a trailing break yields no empty
/// final line, matching how str::lines treats it.
pub open spec fn lines_of(s: Seq<char>) -> Seq<Seq<char>>
    decreases s.len(),
{
    if s.len() == 0 {
        Seq::empty()
    } else {
        let j = line_break(s);
        if j + 1 <= s.len() {
            seq![s.take(j as int)] + lines_of(s.skip(j as int + 1))
        } else {
            seq![s]
        }
    }
}

/// The lines joined back with single line breaks, with no trailing break.
pub open spec fn join_lines(ls: Seq<Seq<char>>) -> Seq<char>
    decreases ls.len(),
{
    if ls.len() == 0 {
        Seq::empty()
    } else if ls.len() == 1 {
        ls[0]
    } else {
        ls[0] + seq!['\n'] + join_lines(ls.drop_first())
    }
}

/// The lines of a text that a line break terminates: the final break yields
/// no extra empty line, so every segment before a break becomes one line.
pub open spec fn complete_lines(x: Seq<char>) -> Seq<Seq<char>> {
    lines_of(x + seq!['\n'])
}

/// A break-free text followed by one break is exactly one line.
pub proof fn lemma_lines_single(x: Seq<char>)
    requires
        forall|k: int| 0 <= k < x.len() ==> x[k] != '\n',
    ensures
        complete_lines(x) == seq![x],
{
    let s = x + seq!['\n'];
    assert(s[x.len() as int] == '\n');
    lemma_line_break_at(s, x.len() as int);
    assert(s.take(x.len() as int) =~= x);
    assert(s.skip(x.len() as int + 1) =~= Seq::<char>::empty());
    assert(lines_of(Seq::<char>::empty()) == Seq::<Seq<char>>::empty());
    assert(lines_of(s) == seq![s.take(x.len() as int)] + lines_of(s.skip(x.len() as int + 1)));
    assert(complete_lines(x) =~= seq![x]);
}

/// A nonempty break-free text without a final break is also one line.
pub proof fn lemma_lines_noterm(x: Seq<char>)
    requires
        x.len() > 0,
        forall|k: int| 0 <= k < x.len() ==> x[k] != '\n',
    ensures
        lines_of(x) == seq![x],
{
    lemma_line_break_at(x, x.len() as int);
}

pub proof fn lemma_lines_nonempty(s: Seq<char>)
    requires
        s.len() > 0,
    ensures
        lines_of(s).len() >= 1,
{
    lemma_line_break(s);
}

/// Splitting distributes over a line break between two texts.
pub proof fn lemma_lines_concat(x: Seq<char>, y: Seq<char>)
    ensures
        lines_of(x + seq!['\n'] + y) == complete_lines(x) + lines_of(y),
    decreases x.len(),
{
    let s = x + seq!['\n'] + y;
    lemma_line_break(x);
    let j = line_break(x);
    if j == x.len() {
        lemma_line_break_at(s, x.len() as int);
        lemma_lines_single(x);
        assert(s.take(x.len() as int) =~= x);
        assert(s.skip(x.len() as int + 1) =~= y);
        assert(lines_of(s) =~= seq![x] + lines_of(y));
    } else {
        lemma_line_break_at(s, j as int);
        let x2 = x.skip(j as int + 1);
        lemma_lines_concat(x2, y);
        assert(s.skip(j as int + 1) =~= x2 + seq!['\n'] + y);
        let sx = x + seq!['\n'];
        lemma_line_break_at(sx, j as int);
        assert(sx.take(j as int) =~= x.take(j as int));
        assert(s.take(j as int) =~= x.take(j as int));
        assert(sx.skip(j as int + 1) =~= x2 + seq!['\n']);
        assert(lines_of(s) =~= seq![x.take(j as int)] + (complete_lines(x2) + lines_of(y)));
        assert(complete_lines(x) =~= seq![x.take(j as int)] + complete_lines(x2));
        assert(lines_of(s) =~= complete_lines(x) + lines_of(y));
    }
}

/// Joining the lines of a break-terminated text gives the text back.
pub proof fn lemma_join_complete(x: Seq<char>)
    ensures
        join_lines(complete_lines(x)) == x,
    decreases x.len(),
{
    lemma_line_break(x);
    let j = line_break(x);
    if j == x.len() {
        lemma_lines_single(x);
    } else {
        let x2 = x.skip(j as int + 1);
        lemma_join_complete(x2);
        let sx = x + seq!['\n'];
        lemma_line_break_at(sx, j as int);
        assert(sx.take(j as int) =~= x.take(j as int));
        assert(sx.skip(j as int + 1) =~= x2 + seq!['\n']);
        assert(complete_lines(x) == seq![x.take(j as int)] + complete_lines(x2));
        lemma_lines_nonempty(x2 + seq!['\n']);
        let ls = seq![x.take(j as int)] + complete_lines(x2);
        assert(ls[0] == x.take(j as int));
        assert(ls.drop_first() =~= complete_lines(x2));
        assert(join_lines(ls) == x.take(j as int) + seq!['\n'] + join_lines(complete_lines(x2)));
        assert(x.take(j as int) + seq!['\n'] + x2 =~= x);
    }
}

/// Joining the lines of a text without a final break gives the text back.
pub proof fn lemma_join_unterminated(s: Seq<char>)
    requires
        s.len() == 0 || s.last() != '\n',
    ensures
        join_lines(lines_of(s)) == s,
    decreases s.len(),
{
    if s.len() > 0 {
        lemma_line_break(s);
        let j = line_break(s);
        if j == s.len() {
            assert(lines_of(s) == seq![s]);
        } else {
            assert(j < s.len() - 1) by {
                assert(s[j as int] == '\n');
                assert(s.last() != '\n');
            }
            let rest = s.skip(j as int + 1);
            assert(rest.len() >= 1);
            assert(rest.last() == s.last());
            lemma_join_unterminated(rest);
            lemma_lines_nonempty(rest);
            let ls = seq![s.take(j as int)] + lines_of(rest);
            assert(lines_of(s) == ls);
            assert(ls[0] == s.take(j as int));
            assert(ls.drop_first() =~= lines_of(rest));
            assert(join_lines(ls) == s.take(j as int) + seq!['\n'] + join_lines(lines_of(rest)));
            assert(s.take(j as int) + seq!['\n'] + rest =~= s);
        }
    }
}

/// The views of a vector of owned lines.
pub open spec fn line_views(v: Seq<String>) -> Seq<Seq<char>> {
    v.map_values(|l: String| l@)
}

pub fn split_lines(s: &str) -> (r: Vec<String>)
    ensures
        line_views(r@) == lines_of(s@),
{
    let len = s.unicode_len();
    let mut out: Vec<String> = Vec::new();
    let mut start: usize = 0;
    let mut i: usize = 0;
    proof {
        assert(s@.skip(0) =~= s@);
        assert(line_views(out@) =~= Seq::<Seq<char>>::empty());
    }
    while i < len
        invariant
            0 <= start <= i <= len,
            len == s@.len(),
            forall|k: int| start <= k < i ==> s@[k] != '\n',
            lines_of(s@) =~= line_views(out@) + lines_of(s@.skip(start as int)),
        decreases len - i,
    {
        if s.get_char(i) == '\n' {
            let line = String::from_str(s.substring_char(start, i));
            proof {
                let rest = s@.skip(start as int);
                lemma_line_break_at(rest, i - start);
                assert(rest.take(i - start) =~= s@.subrange(start as int, i as int));
                assert(rest.skip(i - start + 1) =~= s@.skip(i as int + 1));
                assert(line_views(out@.push(line)) =~= line_views(out@) + seq![line@]);
            }
            out.push(line);
            start = i + 1;
        }
        i = i + 1;
    }
    if start < len {
        let line = String::from_str(s.substring_char(start, len));
        proof {
            let rest = s@.skip(start as int);
            lemma_line_break_at(rest, len - start);
            assert(rest =~= s@.subrange(start as int, len as int));
            assert(line_views(out@.push(line)) =~= line_views(out@) + seq![line@]);
        }
        out.push(line);
    } else {
        proof {
            assert(s@.skip(start as int) =~= Seq::<char>::empty());
        }
    }
    proof {
        assert(line_views(out@) =~= lines_of(s@));
    }
    out
}

/// Appending one more line extends the join with one break and that line.
pub proof fn lemma_join_lines_push(ls: Seq<Seq<char>>, x: Seq<char>)
    requires
        ls.len() >= 1,
    ensures
        join_lines(ls.push(x)) == join_lines(ls) + seq!['\n'] + x,
    decreases ls.len(),
{
    if ls.len() == 1 {
        assert(ls.push(x).drop_first() =~= seq![x]);
        assert(ls.push(x)[0] == ls[0]);
        assert(join_lines(seq![x]) == seq![x][0]);
        assert(join_lines(ls.push(x)) =~= join_lines(ls) + seq!['\n'] + x);
    } else {
        lemma_join_lines_push(ls.drop_first(), x);
        assert(ls.push(x).drop_first() =~= ls.drop_first().push(x));
        assert(ls.push(x)[0] == ls[0]);
        assert(ls.push(x).len() >= 2);
        assert(join_lines(ls.push(x)) == ls[0] + seq!['\n'] + join_lines(ls.drop_first().push(x)));
        assert(join_lines(ls.drop_first().push(x)) == join_lines(ls.drop_first()) + seq!['\n'] + x);
        assert(join_lines(ls) == ls[0] + seq!['\n'] + join_lines(ls.drop_first()));
        assert(join_lines(ls.push(x)) =~= join_lines(ls) + seq!['\n'] + x);
    }
}

pub fn join_lines_vec(v: &Vec<String>) -> (r: String)
    ensures
        r@ == join_lines(line_views(v@)),
{
    let mut r = String::new();
    let mut i: usize = 0;
    proof {
        reveal_strlit("\n");
    }
    while i < v.len()
        invariant
            0 <= i <= v@.len(),
            r@ == join_lines(line_views(v@).take(i as int)),
            "\n"@ == seq!['\n'],
        decreases v@.len() - i,
    {
        if i > 0 {
            r.append("\n");
        }
        proof {
            let lv = line_views(v@);
            if i > 0 {
                lemma_join_lines_push(lv.take(i as int), lv[i as int]);
                assert(lv.take(i as int).push(lv[i as int]) =~= lv.take(i as int + 1));
            } else {
                assert(lv.take(1) =~= seq![lv[0]]);
            }
        }
        r.append(v[i].as_str());
        i = i + 1;
    }
    proof {
        assert(line_views(v@).take(v@.len() as int) =~= line_views(v@));
    }
    r
}

// ----------------------------------------------------------------------------
// Prefixes and equality
// ----------------------------------------------------------------------------

pub open spec fn starts_with(s: Seq<char>, p: Seq<char>) -> bool {
    p.len() <= s.len() && s.take(p.len() as int) == p
}

pub fn str_starts_with(s: &str, p: &str) -> (r: bool)
    ensures
        r == starts_with(s@, p@),
{
    let slen = s.unicode_len();
    let plen = p.unicode_len();
    if plen > slen {
        return false;
    }
    let mut i: usize = 0;
    while i < plen
        invariant
            0 <= i <= plen <= slen,
            slen == s@.len(),
            plen == p@.len(),
            forall|k: int| 0 <= k < i ==> s@[k] == p@[k],
        decreases plen - i,
    {
        if s.get_char(i) != p.get_char(i) {
            assert(s@.take(plen as int)[i as int] != p@[i as int]);
            return false;
        }
        i = i + 1;
    }
    proof {
        assert(s@.take(plen as int) =~= p@);
    }
    true
}

pub open spec fn ends_with(s: Seq<char>, p: Seq<char>) -> bool {
    p.len() <= s.len() && s.skip(s.len() - p.len()) == p
}

pub fn str_ends_with(s: &str, p: &str) -> (r: bool)
    ensures
        r == ends_with(s@, p@),
{
    let slen = s.unicode_len();
    let plen = p.unicode_len();
    if plen > slen {
        return false;
    }
    let off = slen - plen;
    let mut i: usize = 0;
    while i < plen
        invariant
            0 <= i <= plen <= slen,
            off == slen - plen,
            slen == s@.len(),
            plen == p@.len(),
            forall|k: int| 0 <= k < i ==> s@[off + k] == p@[k],
        decreases plen - i,
    {
        if s.get_char(off + i) != p.get_char(i) {
            assert(s@.skip(off as int)[i as int] != p@[i as int]);
            return false;
        }
        i = i + 1;
    }
    proof {
        assert(s@.skip(off as int) =~= p@);
    }
    true
}

pub fn str_eq(a: &str, b: &str) -> (r: bool)
    ensures
        r == (a@ == b@),
{
    let sa = String::from_str(a);
    let sb = String::from_str(b);
    sa == sb
}

// ----------------------------------------------------------------------------
// Decimal rendering
// ----------------------------------------------------------------------------

pub open spec fn digit_char(d: nat) -> char {
    if d == 0 {
        '0'
    } else if d == 1 {
        '1'
    } else if d == 2 {
        '2'
    } else if d == 3 {
        '3'
    } else if d == 4 {
        '4'
    } else if d == 5 {
        '5'
    } else if d == 6 {
        '6'
    } else if d == 7 {
        '7'
    } else if d == 8 {
        '8'
    } else {
        '9'
    }
}

/// The decimal digits of a number, most significant first.
pub open spec fn dec_digits(n: nat) -> Seq<char>
    decreases n,
{
    if n < 10 {
        seq![digit_char(n)]
    } else {
        dec_digits(n / 10) + seq![digit_char(n % 10)]
    }
}

fn digit_to_char(d: u64) -> (c: char)
    requires
        d < 10,
    ensures
        c == digit_char(d as nat),
{
    if d == 0 {
        '0'
    } else if d == 1 {
        '1'
    } else if d == 2 {
        '2'
    } else if d == 3 {
        '3'
    } else if d == 4 {
        '4'
    } else if d == 5 {
        '5'
    } else if d == 6 {
        '6'
    } else if d == 7 {
        '7'
    } else if d == 8 {
        '8'
    } else {
        '9'
    }
}

pub fn u64_to_string(n: u64) -> (r: String)
    ensures
        r@ == dec_digits(n as nat),
    decreases n,
{
    if n < 10 {
        let mut s = String::new();
        push_char(&mut s, digit_to_char(n));
        proof {
            assert(s@ =~= seq![digit_char(n as nat)]);
        }
        s
    } else {
        let mut s = u64_to_string(n / 10);
        push_char(&mut s, digit_to_char(n % 10));
        s
    }
}

} // verus!
