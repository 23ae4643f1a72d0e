//! Character classes and sequence operations on text, shared by the search,
//! the frontmatter parser and the registry.

use vstd::prelude::*;

verus! {

// ---------------------------------------------------------------------------
// Character classes
// ---------------------------------------------------------------------------

/// The Unicode `White_Space` property, which `char::is_whitespace` tests.
pub open spec fn is_white_space(c: char) -> bool {
    let u = c as u32;
    ||| 0x9 <= u <= 0xd
    ||| u == 0x20
    ||| u == 0x85
    ||| u == 0xa0
    ||| u == 0x1680
    ||| 0x2000 <= u <= 0x200a
    ||| u == 0x2028
    ||| u == 0x2029
    ||| u == 0x202f
    ||| u == 0x205f
    ||| u == 0x3000
}

/// CJK Unified Ideographs, U+4E00 to U+9FFF.
pub open spec fn is_cjk_char(c: char) -> bool {
    0x4e00 <= (c as u32) <= 0x9fff
}

pub open spec fn is_ascii_alnum(c: char) -> bool {
    let u = c as u32;
    (0x30 <= u <= 0x39) || (0x41 <= u <= 0x5a) || (0x61 <= u <= 0x7a)
}

pub open spec fn is_ascii_upper(c: char) -> bool {
    0x41 <= (c as u32) <= 0x5a
}

/// `char::to_ascii_lowercase`.
pub open spec fn ascii_lower(c: char) -> char {
    if is_ascii_upper(c) {
        ((c as u32) + 32) as char
    } else {
        c
    }
}

/// `char::is_whitespace`.
pub fn is_whitespace(c: char) -> (r: bool)
    ensures
        r == is_white_space(c),
{
    let u = c as u32;
    (0x9 <= u && u <= 0xd) || u == 0x20 || u == 0x85 || u == 0xa0 || u == 0x1680 || (0x2000 <= u
        && u <= 0x200a) || u == 0x2028 || u == 0x2029 || u == 0x202f || u == 0x205f || u == 0x3000
}

pub fn is_cjk(c: char) -> (r: bool)
    ensures
        r == is_cjk_char(c),
{
    let u = c as u32;
    0x4e00 <= u && u <= 0x9fff
}

/// `char::is_ascii_alphanumeric`.
pub fn is_ascii_alphanumeric(c: char) -> (r: bool)
    ensures
        r == is_ascii_alnum(c),
{
    let u = c as u32;
    (0x30 <= u && u <= 0x39) || (0x41 <= u && u <= 0x5a) || (0x61 <= u && u <= 0x7a)
}

pub fn to_ascii_lowercase(c: char) -> (r: char)
    ensures
        r == ascii_lower(c),
{
    let u = c as u32;
    if 0x41 <= u && u <= 0x5a {
        assert(0x61 <= u + 32 <= 0x7a);
        char_from_ascii(u + 32)
    } else {
        c
    }
}

fn char_from_ascii(u: u32) -> (c: char)
    requires
        u < 0x80,
    ensures
        c == u as char,
        c as u32 == u,
{
    let b = u as u8;
    b as char
}

// ---------------------------------------------------------------------------
// Conversions between strings and characters
// ---------------------------------------------------------------------------

/// The characters of `s`, in order.
pub fn chars_of(s: &str) -> (v: Vec<char>)
    ensures
        v@ == s@,
{
    broadcast use vstd::string::group_string_axioms;

    let mut v: Vec<char> = Vec::new();
    for c in it: s.chars()
        invariant
            it.seq() == s@,
            v@ == s@.take(it.index() as int),
    {
        v.push(c);
        assert(s@.take(it.index() + 1) =~= v@);
    }
    v
}

/// `String: FromIterator<char>`: the string made of these characters, in
/// order, as the documentation of `String`'s `FromIterator` impl states.
#[verifier::external_body]
pub(crate) fn string_of(chars: &Vec<char>) -> (s: String)
    ensures
        s@ == chars@,
{
    chars.iter().collect()
}

/// What `str::to_lowercase` returns for a string with these characters: the
/// Unicode lowercase mapping, with the final-sigma rule applied.
pub uninterp spec fn str_lowercase(s: Seq<char>) -> Seq<char>;

/// What `char::to_lowercase` yields for one character.
pub uninterp spec fn char_lowercase(c: char) -> Seq<char>;

/// `str::to_lowercase`: the result is a function of the characters of `s`
/// alone, named `str_lowercase`; nothing more is claimed of it.
#[verifier::external_body]
pub(crate) fn lowercase(s: &str) -> (r: String)
    ensures
        r@ == str_lowercase(s@),
{
    s.to_lowercase()
}

/// `char::to_lowercase`, collected: the result is a function of `c` alone,
/// named `char_lowercase`; nothing more is claimed of it.
#[verifier::external_body]
pub(crate) fn lowercase_char(c: char) -> (r: Vec<char>)
    ensures
        r@ == char_lowercase(c),
{
    c.to_lowercase().collect()
}

/// The number of UTF-8 bytes that encode `s`.
pub open spec fn byte_len(s: Seq<char>) -> nat {
    vstd::utf8::encode_utf8(s).len()
}

// ---------------------------------------------------------------------------
// Comparisons
// ---------------------------------------------------------------------------

pub open spec fn is_prefix(p: Seq<char>, s: Seq<char>) -> bool {
    p.len() <= s.len() && s.subrange(0, p.len() as int) == p
}

pub open spec fn is_suffix(p: Seq<char>, s: Seq<char>) -> bool {
    p.len() <= s.len() && s.subrange(s.len() - p.len(), s.len() as int) == p
}

/// `needle` occurs in `hay` as a contiguous run. For valid UTF-8 this is the
/// same as `str::contains` on the byte encodings.
pub open spec fn occurs_in(needle: Seq<char>, hay: Seq<char>) -> bool {
    exists|i: int| 0 <= i <= hay.len() - needle.len() && #[trigger] hay.subrange(i, i + needle.len()) == needle
}

pub fn chars_eq(a: &Vec<char>, b: &Vec<char>) -> (r: bool)
    ensures
        r == (a@ == b@),
{
    if a.len() != b.len() {
        return false;
    }
    let mut i: usize = 0;
    while i < a.len()
        invariant
            a.len() == b.len(),
            i <= a.len(),
            forall|j: int| 0 <= j < i ==> a@[j] == b@[j],
        decreases a.len() - i,
    {
        if a[i] != b[i] {
            return false;
        }
        i = i + 1;
    }
    assert(a@ =~= b@);
    true
}

/// Whether `p` matches `s` starting at `at`.
pub fn matches_at(p: &Vec<char>, s: &Vec<char>, at: usize) -> (r: bool)
    requires
        at + p.len() <= s.len(),
    ensures
        r == (s@.subrange(at as int, at + p.len()) == p@),
{
    let mut i: usize = 0;
    while i < p.len()
        invariant
            at + p.len() <= s.len(),
            i <= p.len(),
            forall|j: int| 0 <= j < i ==> s@[at + j] == p@[j],
        decreases p.len() - i,
    {
        if s[at + i] != p[i] {
            assert(s@.subrange(at as int, at + p.len())[i as int] != p@[i as int]);
            return false;
        }
        i = i + 1;
    }
    assert(s@.subrange(at as int, at + p.len()) =~= p@);
    true
}

pub fn starts_with(s: &Vec<char>, p: &Vec<char>) -> (r: bool)
    ensures
        r == is_prefix(p@, s@),
{
    if p.len() > s.len() {
        return false;
    }
    matches_at(p, s, 0)
}

pub fn ends_with(s: &Vec<char>, p: &Vec<char>) -> (r: bool)
    ensures
        r == is_suffix(p@, s@),
{
    if p.len() > s.len() {
        return false;
    }
    matches_at(p, s, s.len() - p.len())
}

pub fn contains(hay: &Vec<char>, needle: &Vec<char>) -> (r: bool)
    ensures
        r == occurs_in(needle@, hay@),
{
    if needle.len() > hay.len() {
        return false;
    }
    if needle.len() == 0 {
        assert(hay@.subrange(0int, 0int + needle@.len()) =~= needle@);
        return true;
    }
    let last = hay.len() - needle.len();
    let mut i: usize = 0;
    while i <= last
        invariant
            last == hay.len() - needle.len(),
            0 < needle.len() <= hay.len(),
            i <= last + 1,
            forall|j: int| 0 <= j < i ==> #[trigger] hay@.subrange(j, j + needle.len()) != needle@,
        decreases last + 1 - i,
    {
        if matches_at(needle, hay, i) {
            return true;
        }
        i = i + 1;
    }
    false
}

// ---------------------------------------------------------------------------
// Splitting into runs and joining
// ---------------------------------------------------------------------------

/// Which characters separate the pieces of a split.
#[derive(Clone, Copy, PartialEq, Eq, Structural)]
pub enum Separator {
    /// `char::is_whitespace`, as `str::split_whitespace` uses.
    Whitespace,
    /// Whitespace or a comma.
    WhitespaceOrComma,
    /// Anything but an ASCII letter or digit or a CJK ideograph.
    NonTokenChar,
    /// Whitespace, `_`, `/`, `\\` or `-`: the characters that search
    /// normalisation turns into word breaks.
    WordBreak,
}

pub open spec fn separates(sep: Separator, c: char) -> bool {
    match sep {
        Separator::Whitespace => is_white_space(c),
        Separator::WhitespaceOrComma => is_white_space(c) || c == ',',
        Separator::NonTokenChar => !(is_ascii_alnum(c) || is_cjk_char(c)),
        Separator::WordBreak => is_white_space(c) || c == '_' || c == '/' || c == '\\' || c == '-',
    }
}

pub fn is_separator(sep: Separator, c: char) -> (r: bool)
    ensures
        r == separates(sep, c),
{
    match sep {
        Separator::Whitespace => is_whitespace(c),
        Separator::WhitespaceOrComma => is_whitespace(c) || c == ',',
        Separator::NonTokenChar => !(is_ascii_alphanumeric(c) || is_cjk(c)),
        Separator::WordBreak => is_whitespace(c) || c == '_' || c == '/' || c == '\\' || c == '-',
    }
}

/// Scanning `s` from the left: the finished runs and the run still open.
pub open spec fn run_scan(s: Seq<char>, sep: Separator) -> (Seq<Seq<char>>, Seq<char>)
    decreases s.len(),
{
    if s.len() == 0 {
        (Seq::empty(), Seq::empty())
    } else {
        let (done, cur) = run_scan(s.drop_last(), sep);
        let c = s.last();
        if separates(sep, c) {
            if cur.len() > 0 {
                (done.push(cur), Seq::empty())
            } else {
                (done, Seq::empty())
            }
        } else {
            (done, cur.push(c))
        }
    }
}

/// The maximal non-empty runs of non-separator characters of `s`, in order:
/// what `str::split` yields once the empty pieces are dropped.
pub open spec fn runs(s: Seq<char>, sep: Separator) -> Seq<Seq<char>> {
    let (done, cur) = run_scan(s, sep);
    if cur.len() > 0 {
        done.push(cur)
    } else {
        done
    }
}

/// Every run is non-empty and holds no separator.
pub proof fn lemma_run_scan_shape(s: Seq<char>, sep: Separator)
    ensures
        forall|i: int| 0 <= i < run_scan(s, sep).0.len() ==> #[trigger] run_scan(s, sep).0[i].len()
            > 0,
        forall|i: int, j: int|
            0 <= i < run_scan(s, sep).0.len() && 0 <= j < run_scan(s, sep).0[i].len()
                ==> !separates(sep, #[trigger] run_scan(s, sep).0[i][j]),
        forall|j: int|
            0 <= j < run_scan(s, sep).1.len() ==> !separates(sep, #[trigger] run_scan(s, sep).1[j]),
    decreases s.len(),
{
    if s.len() > 0 {
        lemma_run_scan_shape(s.drop_last(), sep);
        let (done, cur) = run_scan(s.drop_last(), sep);
        let c = s.last();
        if separates(sep, c) {
            if cur.len() > 0 {
                assert(run_scan(s, sep).0 == done.push(cur));
                assert forall|i: int| 0 <= i < done.push(cur).len() implies #[trigger] done.push(
                    cur,
                )[i].len() > 0 by {
                    if i < done.len() {
                        assert(done.push(cur)[i] == done[i]);
                    }
                }
                assert forall|i: int, j: int|
                    0 <= i < done.push(cur).len() && 0 <= j < done.push(cur)[i].len() implies !separates(
                    sep,
                    #[trigger] done.push(cur)[i][j],
                ) by {
                    if i < done.len() {
                        assert(done.push(cur)[i] == done[i]);
                    }
                }
            }
        } else {
            assert forall|j: int| 0 <= j < cur.push(c).len() implies !separates(
                sep,
                #[trigger] cur.push(c)[j],
            ) by {
                if j < cur.len() {
                    assert(cur.push(c)[j] == cur[j]);
                }
            }
        }
    }
}

/// The pieces of a split are never empty and hold no separator.
pub proof fn lemma_runs_shape(s: Seq<char>, sep: Separator)
    ensures
        forall|i: int| 0 <= i < runs(s, sep).len() ==> #[trigger] runs(s, sep)[i].len() > 0,
        forall|i: int, j: int|
            0 <= i < runs(s, sep).len() && 0 <= j < runs(s, sep)[i].len() ==> !separates(
                sep,
                #[trigger] runs(s, sep)[i][j],
            ),
{
    lemma_run_scan_shape(s, sep);
}

/// Splits `s` into its runs.
pub fn split_runs(s: &Vec<char>, sep: Separator) -> (r: Vec<Vec<char>>)
    ensures
        r@.len() == runs(s@, sep).len(),
        forall|i: int| 0 <= i < r@.len() ==> #[trigger] r@[i]@ == runs(s@, sep)[i],
{
    let mut done: Vec<Vec<char>> = Vec::new();
    let mut cur: Vec<char> = Vec::new();
    let mut i: usize = 0;
    while i < s.len()
        invariant
            i <= s.len(),
            done@.len() == run_scan(s@.take(i as int), sep).0.len(),
            forall|k: int| 0 <= k < done@.len() ==> #[trigger] done@[k]@ == run_scan(
                s@.take(i as int),
                sep,
            ).0[k],
            cur@ == run_scan(s@.take(i as int), sep).1,
        decreases s.len() - i,
    {
        let c = s[i];
        assert(s@.take(i + 1).drop_last() =~= s@.take(i as int));
        if is_separator(sep, c) {
            if cur.len() > 0 {
                done.push(cur);
                cur = Vec::new();
            }
        } else {
            cur.push(c);
        }
        i = i + 1;
    }
    assert(s@.take(s.len() as int) =~= s@);
    if cur.len() > 0 {
        done.push(cur);
    }
    done
}

/// The pieces joined with `sep` between neighbours.
pub open spec fn join_with(pieces: Seq<Seq<char>>, sep: Seq<char>) -> Seq<char>
    decreases pieces.len(),
{
    if pieces.len() == 0 {
        Seq::empty()
    } else if pieces.len() == 1 {
        pieces[0]
    } else {
        join_with(pieces.drop_last(), sep) + sep + pieces.last()
    }
}

pub fn join_chars(pieces: &Vec<Vec<char>>, sep: &Vec<char>) -> (r: Vec<char>)
    ensures
        r@ == join_with(pieces@.map_values(|p: Vec<char>| p@), sep@),
{
    let ghost views = pieces@.map_values(|p: Vec<char>| p@);
    let mut out: Vec<char> = Vec::new();
    let mut i: usize = 0;
    while i < pieces.len()
        invariant
            i <= pieces.len(),
            views == pieces@.map_values(|p: Vec<char>| p@),
            out@ == join_with(views.take(i as int), sep@),
        decreases pieces.len() - i,
    {
        assert(views.take(i + 1).drop_last() =~= views.take(i as int));
        if i > 0 {
            append_chars(&mut out, sep);
        }
        append_chars(&mut out, &pieces[i]);
        i = i + 1;
    }
    assert(views.take(pieces.len() as int) =~= views);
    out
}

pub fn append_chars(out: &mut Vec<char>, more: &Vec<char>)
    ensures
        final(out)@ == old(out)@ + more@,
{
    let mut i: usize = 0;
    let ghost start = out@;
    while i < more.len()
        invariant
            i <= more.len(),
            out@ == start + more@.take(i as int),
        decreases more.len() - i,
    {
        out.push(more[i]);
        i = i + 1;
        assert(start + more@.take(i as int) =~= (start + more@.take(i - 1)).push(more@[i - 1]));
    }
    assert(more@.take(more.len() as int) =~= more@);
}

// ---------------------------------------------------------------------------
// Trimming
// ---------------------------------------------------------------------------

/// Drops leading whitespace.
pub open spec fn trim_start_ws(s: Seq<char>) -> Seq<char>
    decreases s.len(),
{
    if s.len() == 0 {
        s
    } else if is_white_space(s[0]) {
        trim_start_ws(s.drop_first())
    } else {
        s
    }
}

/// Drops trailing whitespace.
pub open spec fn trim_end_ws(s: Seq<char>) -> Seq<char>
    decreases s.len(),
{
    if s.len() == 0 {
        s
    } else if is_white_space(s.last()) {
        trim_end_ws(s.drop_last())
    } else {
        s
    }
}

/// `str::trim`.
pub open spec fn trim_ws(s: Seq<char>) -> Seq<char> {
    trim_end_ws(trim_start_ws(s))
}

proof fn lemma_trim_start_skip(s: Seq<char>, i: int)
    requires
        0 <= i <= s.len(),
        forall|k: int| 0 <= k < i ==> is_white_space(#[trigger] s[k]),
    ensures
        trim_start_ws(s) == trim_start_ws(s.skip(i)),
    decreases i,
{
    if i > 0 {
        assert(s.skip(1) =~= s.drop_first());
        assert forall|k: int| 0 <= k < i - 1 implies is_white_space(#[trigger] s.drop_first()[k]) by {
            assert(s.drop_first()[k] == s[k + 1]);
        }
        lemma_trim_start_skip(s.drop_first(), i - 1);
        assert(s.drop_first().skip(i - 1) =~= s.skip(i));
    } else {
        assert(s.skip(0) =~= s);
    }
}

proof fn lemma_trim_end_take(s: Seq<char>, j: int)
    requires
        0 <= j <= s.len(),
        forall|k: int| j <= k < s.len() ==> is_white_space(#[trigger] s[k]),
    ensures
        trim_end_ws(s) == trim_end_ws(s.take(j)),
    decreases s.len() - j,
{
    if j < s.len() {
        assert(s.take(s.len() - 1) =~= s.drop_last());
        assert forall|k: int| j <= k < s.len() - 1 implies is_white_space(#[trigger] s.drop_last()[k]) by {
            assert(s.drop_last()[k] == s[k]);
        }
        lemma_trim_end_take(s.drop_last(), j);
        assert(s.drop_last().take(j) =~= s.take(j));
    } else {
        assert(s.take(j) =~= s);
    }
}

/// `str::trim`: the characters without leading and trailing whitespace.
pub fn trim_chars(s: &Vec<char>) -> (r: Vec<char>)
    ensures
        r@ == trim_ws(s@),
{
    let mut start: usize = 0;
    while start < s.len() && is_whitespace(s[start])
        invariant
            start <= s.len(),
            forall|k: int| 0 <= k < start ==> is_white_space(#[trigger] s@[k]),
        decreases s.len() - start,
    {
        start = start + 1;
    }
    proof {
        lemma_trim_start_skip(s@, start as int);
    }
    let ghost t = s@.skip(start as int);
    assert(t.len() == 0 || !is_white_space(t[0]));
    assert(trim_start_ws(t) == t);
    let mut end: usize = s.len();
    while end > start && is_whitespace(s[end - 1])
        invariant
            start <= end <= s.len(),
            t == s@.skip(start as int),
            forall|k: int| end - start <= k < t.len() ==> is_white_space(#[trigger] t[k]),
        decreases end - start,
    {
        end = end - 1;
    }
    proof {
        lemma_trim_end_take(t, end - start);
    }
    let ghost u = t.take(end - start);
    assert(u.len() == 0 || !is_white_space(u.last()));
    assert(trim_end_ws(u) == u);
    let mut out: Vec<char> = Vec::new();
    let mut i: usize = start;
    while i < end
        invariant
            start <= i <= end <= s.len(),
            out@ == s@.subrange(start as int, i as int),
        decreases end - i,
    {
        out.push(s[i]);
        i = i + 1;
        assert(out@ =~= s@.subrange(start as int, i as int));
    }
    assert(out@ =~= u);
    out
}

/// `str::trim` on a string.
pub fn trim_string(s: &str) -> (r: String)
    ensures
        r@ == trim_ws(s@),
{
    let chars = chars_of(s);
    let t = trim_chars(&chars);
    string_of(&t)
}

} // verus!
