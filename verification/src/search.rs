//! Keyword search over skill records: normalisation, tokenisation, edit
//! distance, scoring and ranking.

use crate::model::{
    hits_view, records_view, strings_view, HitView, RecordView, SkillRecord, SkillSearchResult,
};
use crate::text::{
    append_chars, byte_len, chars_eq, chars_of, is_ascii_alnum, is_ascii_alphanumeric, is_cjk,
    contains, ends_with, is_cjk_char, is_prefix, is_suffix, join_chars, occurs_in, starts_with, join_with, lowercase, runs, split_runs, str_lowercase, string_of,
    Separator,
};
use vstd::prelude::*;

verus! {

/// The views of a list of character vectors.
pub open spec fn vviews(v: Seq<Vec<char>>) -> Seq<Seq<char>> {
    v.map_values(|x: Vec<char>| x@)
}

/// Viewing a pushed vector of strings is pushing its view.
pub proof fn lemma_vviews_push(v: Seq<Vec<char>>, x: Vec<char>)
    ensures
        vviews(v.push(x)) == vviews(v).push(x@),
{
    assert forall|k: int| 0 <= k < v.len() implies vviews(v.push(x))[k] == vviews(v)[k] by {
        assert(v.push(x)[k] == v[k]);
    }
    assert(vviews(v.push(x)) =~= vviews(v).push(x@));
}

pub fn copy_chars(v: &Vec<char>) -> (r: Vec<char>)
    ensures
        r@ == v@,
{
    let mut r: Vec<char> = Vec::new();
    append_chars(&mut r, v);
    r
}

// ---------------------------------------------------------------------------
// Normalisation
// ---------------------------------------------------------------------------

/// Lowercase, then break words at whitespace and at `_`, `/`, `\` and `-`,
/// then join the words with single spaces.
pub open spec fn spec_normalize(value: Seq<char>) -> Seq<char> {
    join_with(runs(str_lowercase(value), Separator::WordBreak), seq![' '])
}

pub fn normalize_chars(value: &str) -> (r: Vec<char>)
    ensures
        r@ == spec_normalize(value@),
{
    let lower = lowercase(value);
    let chars = chars_of(lower.as_str());
    let words = split_runs(&chars, Separator::WordBreak);
    let mut space: Vec<char> = Vec::new();
    space.push(' ');
    let r = join_chars(&words, &space);
    assert(words@.map_values(|p: Vec<char>| p@) =~= runs(chars@, Separator::WordBreak));
    assert(space@ =~= seq![' ']);
    r
}

/// The search form of a text: lowercase, punctuation-free words joined by
/// single spaces.
pub fn normalize(value: &str) -> (r: String)
    ensures
        r@ == spec_normalize(value@),
{
    let chars = normalize_chars(value);
    string_of(&chars)
}

// ---------------------------------------------------------------------------
// Tokens
// ---------------------------------------------------------------------------

pub open spec fn all_ascii_alnum(s: Seq<char>) -> bool {
    forall|i: int| 0 <= i < s.len() ==> is_ascii_alnum(#[trigger] s[i])
}

/// Every pair of neighbouring characters.
pub open spec fn bigrams(s: Seq<char>) -> Seq<Seq<char>> {
    Seq::new((if s.len() >= 1 { s.len() - 1 } else { 0 }) as nat, |i: int| seq![s[i], s[i + 1]])
}

pub open spec fn cjk_only(s: Seq<char>) -> Seq<char> {
    s.filter(|c: char| is_cjk_char(c))
}

/// The tokens of one run of ASCII letters, digits and CJK ideographs: an
/// ASCII word of two or more characters is one token; otherwise its CJK
/// ideographs give their bigrams and, when there are two or more, the whole
/// run of ideographs.
pub open spec fn segment_tokens(seg: Seq<char>) -> Seq<Seq<char>> {
    if all_ascii_alnum(seg) {
        if seg.len() >= 2 {
            seq![seg]
        } else {
            Seq::empty()
        }
    } else {
        let cjk = cjk_only(seg);
        if cjk.len() >= 2 {
            bigrams(cjk).push(cjk)
        } else {
            bigrams(cjk)
        }
    }
}

/// The tokens of a text, segment by segment.
pub open spec fn spec_tokenize(value: Seq<char>) -> Seq<Seq<char>> {
    runs(value, Separator::NonTokenChar).map_values(|seg: Seq<char>| segment_tokens(seg)).flatten_alt()
}

fn segment_token_list(seg: &Vec<char>) -> (r: Vec<Vec<char>>)
    ensures
        vviews(r@) == segment_tokens(seg@),
{
    let mut all = true;
    let mut i: usize = 0;
    while i < seg.len()
        invariant
            i <= seg.len(),
            all == (forall|k: int| 0 <= k < i ==> is_ascii_alnum(#[trigger] seg@[k])),
        decreases seg.len() - i,
    {
        all = all && is_ascii_alphanumeric(seg[i]);
        i = i + 1;
    }
    let mut out: Vec<Vec<char>> = Vec::new();
    if all {
        if seg.len() >= 2 {
            out.push(copy_chars(seg));
            assert(vviews(out@) =~= seq![seg@]);
        } else {
            assert(vviews(out@) =~= Seq::<Seq<char>>::empty());
        }
        return out;
    }
    let mut cjk: Vec<char> = Vec::new();
    let mut k: usize = 0;
    while k < seg.len()
        invariant
            k <= seg.len(),
            cjk@ == cjk_only(seg@.take(k as int)),
        decreases seg.len() - k,
    {
        reveal_with_fuel(Seq::<char>::filter, 1);
        assert(seg@.take(k + 1).drop_last() =~= seg@.take(k as int));
        if is_cjk(seg[k]) {
            cjk.push(seg[k]);
        }
        k = k + 1;
    }
    assert(seg@.take(seg.len() as int) =~= seg@);
    let mut w: usize = 0;
    while w + 1 < cjk.len()
        invariant
            w <= cjk.len(),
            w == 0 || w + 1 <= cjk.len(),
            out@.len() == w,
            vviews(out@) =~= Seq::new(w as nat, |t: int| seq![cjk@[t], cjk@[t + 1]]),
        decreases cjk.len() - w,
    {
        let mut pair: Vec<char> = Vec::new();
        pair.push(cjk[w]);
        pair.push(cjk[w + 1]);
        assert(pair@ =~= seq![cjk@[w as int], cjk@[w + 1]]);
        proof {
            lemma_vviews_push(out@, pair);
        }
        out.push(pair);
        w = w + 1;
    }
    assert(vviews(out@) =~= bigrams(cjk@));
    if cjk.len() >= 2 {
        out.push(cjk);
        assert(vviews(out@) =~= bigrams(cjk@).push(cjk@));
    }
    out
}

pub fn tokenize_chars(value: &Vec<char>) -> (r: Vec<Vec<char>>)
    ensures
        vviews(r@) == spec_tokenize(value@),
{
    let segs = split_runs(value, Separator::NonTokenChar);
    let ghost segv = runs(value@, Separator::NonTokenChar);
    let ghost per = segv.map_values(|seg: Seq<char>| segment_tokens(seg));
    let mut out: Vec<Vec<char>> = Vec::new();
    let mut i: usize = 0;
    while i < segs.len()
        invariant
            i <= segs.len(),
            segs@.len() == segv.len(),
            per == segv.map_values(|seg: Seq<char>| segment_tokens(seg)),
            forall|k: int| 0 <= k < segs@.len() ==> #[trigger] segs@[k]@ == segv[k],
            vviews(out@) == per.take(i as int).flatten_alt(),
        decreases segs.len() - i,
    {
        let toks = segment_token_list(&segs[i]);
        let ghost before = vviews(out@);
        assert(out@.len() == before.len());
        let mut t: usize = 0;
        while t < toks.len()
            invariant
                t <= toks.len(),
                out@.len() == before.len() + t,
                vviews(out@) == before + vviews(toks@).take(t as int),
            decreases toks.len() - t,
        {
            let piece = copy_chars(&toks[t]);
            assert(piece@ == vviews(toks@)[t as int]);
            proof {
                lemma_vviews_push(out@, piece);
            }
            out.push(piece);
            assert(vviews(out@) =~= before + vviews(toks@).take(t + 1));
            t = t + 1;
        }
        assert(vviews(toks@).take(toks.len() as int) =~= vviews(toks@));
        assert(per.take(i + 1).drop_last() =~= per.take(i as int));
        assert(per.take(i + 1).last() == segment_tokens(segv[i as int]));
        i = i + 1;
    }
    assert(per.take(segs.len() as int) =~= per);
    out
}

/// The tokens of a text: ASCII words of two or more characters, and CJK
/// bigrams together with each whole run of ideographs.
pub fn tokenize(value: &str) -> (r: Vec<String>)
    ensures
        strings_view(r@) == spec_tokenize(value@),
{
    let chars = chars_of(value);
    let toks = tokenize_chars(&chars);
    let mut out: Vec<String> = Vec::new();
    let mut i: usize = 0;
    while i < toks.len()
        invariant
            i <= toks.len(),
            out@.len() == i,
            strings_view(out@) =~= vviews(toks@).take(i as int),
        decreases toks.len() - i,
    {
        let piece = string_of(&toks[i]);
        assert(piece@ == vviews(toks@)[i as int]);
        out.push(piece);
        i = i + 1;
    }
    out
}

// ---------------------------------------------------------------------------
// Edit distance
// ---------------------------------------------------------------------------

pub open spec fn min2(x: nat, y: nat) -> nat {
    if x <= y {
        x
    } else {
        y
    }
}

/// The Levenshtein distance over characters.
pub open spec fn edit_distance(a: Seq<char>, b: Seq<char>) -> nat
    decreases a.len() + b.len(),
{
    if a.len() == 0 {
        b.len()
    } else if b.len() == 0 {
        a.len()
    } else {
        min2(
            min2(edit_distance(a.drop_last(), b) + 1, edit_distance(a, b.drop_last()) + 1),
            edit_distance(a.drop_last(), b.drop_last()) + (if a.last() == b.last() {
                0nat
            } else {
                1nat
            }),
        )
    }
}

/// What `str::len` returns for a string with these characters.
pub open spec fn str_byte_len(s: Seq<char>) -> usize {
    byte_len(s) as usize
}

/// The distance that `levenshtein` reports: zero for equal texts, the byte
/// length of the other text when one is empty, the edit distance otherwise.
pub open spec fn spec_levenshtein(a: Seq<char>, b: Seq<char>) -> nat {
    if a == b {
        0
    } else if a.len() == 0 {
        str_byte_len(b) as nat
    } else if b.len() == 0 {
        str_byte_len(a) as nat
    } else {
        edit_distance(a, b)
    }
}

/// No edit distance exceeds the longer length.
proof fn lemma_edit_distance_bound(a: Seq<char>, b: Seq<char>)
    ensures
        edit_distance(a, b) <= if a.len() >= b.len() {
            a.len()
        } else {
            b.len()
        },
    decreases a.len() + b.len(),
{
    if a.len() > 0 && b.len() > 0 {
        lemma_edit_distance_bound(a.drop_last(), b.drop_last());
    }
}

proof fn lemma_edit_step(a: Seq<char>, b: Seq<char>, i: int, j: int)
    requires
        0 < i <= a.len(),
        0 < j <= b.len(),
    ensures
        edit_distance(a.take(i), b.take(j)) == min2(
            min2(
                edit_distance(a.take(i - 1), b.take(j)) + 1,
                edit_distance(a.take(i), b.take(j - 1)) + 1,
            ),
            edit_distance(a.take(i - 1), b.take(j - 1)) + (if a[i - 1] == b[j - 1] {
                0nat
            } else {
                1nat
            }),
        ),
{
    assert(a.take(i).drop_last() =~= a.take(i - 1));
    assert(b.take(j).drop_last() =~= b.take(j - 1));
}

/// The edit distance over characters, by dynamic programming.
fn edit_distance_exec(a: &Vec<char>, b: &Vec<char>) -> (d: usize)
    ensures
        d == edit_distance(a@, b@),
{
    let n = a.len();
    let m = b.len();
    let mut prev: Vec<usize> = Vec::new();
    prev.push(0);
    let mut j: usize = 0;
    while j < m
        invariant
            j <= m,
            m == b.len(),
            prev@.len() == j + 1,
            forall|k: int| 0 <= k <= j ==> #[trigger] prev@[k] == k,
        decreases m - j,
    {
        prev.push(j + 1);
        j = j + 1;
    }
    assert forall|k: int| 0 <= k <= m implies #[trigger] prev@[k] == edit_distance(
        a@.take(0),
        b@.take(k),
    ) by {
        assert(a@.take(0).len() == 0);
    }
    let row_len = prev.len();
    assert(row_len == m + 1);
    let mut i: usize = 0;
    while i < n
        invariant
            i <= n,
            m < usize::MAX,
            n == a.len(),
            m == b.len(),
            prev@.len() == m + 1,
            forall|k: int| 0 <= k <= m ==> #[trigger] prev@[k] == edit_distance(
                a@.take(i as int),
                b@.take(k),
            ),
        decreases n - i,
    {
        let mut cur: Vec<usize> = Vec::new();
        cur.push(i + 1);
        assert(b@.take(0).len() == 0);
        let mut k: usize = 0;
        while k < m
            invariant
                i < n,
                m < usize::MAX,
                k <= m,
                n == a.len(),
                m == b.len(),
                prev@.len() == m + 1,
                forall|t: int| 0 <= t <= m ==> #[trigger] prev@[t] == edit_distance(
                    a@.take(i as int),
                    b@.take(t),
                ),
                cur@.len() == k + 1,
                forall|t: int| 0 <= t <= k ==> #[trigger] cur@[t] == edit_distance(
                    a@.take(i + 1),
                    b@.take(t),
                ),
            decreases m - k,
        {
            proof {
                lemma_edit_step(a@, b@, i + 1, k + 1);
                lemma_edit_distance_bound(a@.take(i as int), b@.take(k + 1));
                lemma_edit_distance_bound(a@.take(i + 1), b@.take(k as int));
                lemma_edit_distance_bound(a@.take(i as int), b@.take(k as int));
            }
            let up = prev[k + 1];
            let left = cur[k];
            let diag = if a[i] == b[k] {
                prev[k]
            } else {
                prev[k] + 1
            };
            let side = if up <= left {
                up
            } else {
                left
            };
            let v = if side + 1 <= diag {
                side + 1
            } else {
                diag
            };
            cur.push(v);
            k = k + 1;
        }
        prev = cur;
        i = i + 1;
    }
    assert(a@.take(n as int) =~= a@);
    assert(b@.take(m as int) =~= b@);
    prev[m]
}

/// The byte length of the UTF-8 encoding of these characters.
fn str_len_of(v: &Vec<char>) -> (n: usize)
    ensures
        n == str_byte_len(v@),
{
    let s = string_of(v);
    s.as_str().len()
}

/// Levenshtein distance with the shortcuts the ranking takes: equal
/// texts are at distance zero, and an empty text is at the byte length of
/// the other.
pub fn levenshtein(a: &Vec<char>, b: &Vec<char>) -> (d: usize)
    ensures
        d == spec_levenshtein(a@, b@),
{
    if chars_eq(a, b) {
        return 0;
    }
    if a.len() == 0 {
        return str_len_of(b);
    }
    if b.len() == 0 {
        return str_len_of(a);
    }
    edit_distance_exec(a, b)
}


// ---------------------------------------------------------------------------
// Similarity
// ---------------------------------------------------------------------------

/// The fraction `distance / length` from which the caller derives the
/// similarity bonus: the Levenshtein distance between the query and a name,
/// over the longer of their byte lengths.
#[derive(Debug, Clone, Copy, PartialEq, Eq, Structural)]
pub struct EditRatio {
    pub distance: usize,
    pub length: usize,
}

pub open spec fn max_usize(x: usize, y: usize) -> usize {
    if x >= y {
        x
    } else {
        y
    }
}

/// The ratio between the query and one name; an empty side counts as the
/// ratio one.
pub open spec fn spec_edit_ratio(q: Seq<char>, t: Seq<char>) -> EditRatio {
    if q.len() == 0 || t.len() == 0 {
        EditRatio { distance: 1, length: 1 }
    } else {
        EditRatio {
            distance: spec_levenshtein(q, t) as usize,
            length: max_usize(str_byte_len(q), str_byte_len(t)),
        }
    }
}

/// `a` is strictly below `b`, compared by cross-multiplication.
pub open spec fn ratio_lt(a: EditRatio, b: EditRatio) -> bool {
    (a.distance as int) * (b.length as int) < (b.distance as int) * (a.length as int)
}

/// The smallest ratio of the query against the names, the first one kept
/// on ties.
pub open spec fn best_ratio(q: Seq<char>, names: Seq<Seq<char>>) -> EditRatio
    decreases names.len(),
{
    if names.len() <= 1 {
        spec_edit_ratio(q, names[0])
    } else {
        let prev = best_ratio(q, names.drop_last());
        let cand = spec_edit_ratio(q, names.last());
        if ratio_lt(cand, prev) {
            cand
        } else {
            prev
        }
    }
}

/// The names that the similarity bonus is measured against: the normalised
/// id, the normalised name and each normalised keyword.
pub open spec fn similarity_names(rec: RecordView) -> Seq<Seq<char>> {
    seq![spec_normalize(rec.skill_id), spec_normalize(rec.skill_name)] + rec.keywords.map_values(
        |k: Seq<char>| spec_normalize(k),
    )
}

fn edit_ratio(q: &Vec<char>, t: &Vec<char>) -> (r: EditRatio)
    ensures
        r == spec_edit_ratio(q@, t@),
{
    if q.len() == 0 || t.len() == 0 {
        return EditRatio { distance: 1, length: 1 };
    }
    let d = levenshtein(q, t);
    let lq = str_len_of(q);
    let lt = str_len_of(t);
    EditRatio { distance: d, length: if lq >= lt { lq } else { lt } }
}

fn ratio_less(a: EditRatio, b: EditRatio) -> (r: bool)
    ensures
        r == ratio_lt(a, b),
{
    proof {
        lemma_product_fits(a.distance as nat, b.length as nat);
        lemma_product_fits(b.distance as nat, a.length as nat);
    }
    (a.distance as u128) * (b.length as u128) < (b.distance as u128) * (a.length as u128)
}

proof fn lemma_product_fits(x: nat, y: nat)
    requires
        x <= 0xffff_ffff_ffff_ffff,
        y <= 0xffff_ffff_ffff_ffff,
    ensures
        x * y <= 0xffff_ffff_ffff_ffff_ffff_ffff_ffff_ffff,
{
    assert(x * y <= 0xffff_ffff_ffff_ffff * 0xffff_ffff_ffff_ffffnat) by (nonlinear_arith)
        requires
            x <= 0xffff_ffff_ffff_ffff,
            y <= 0xffff_ffff_ffff_ffff,
    ;
}

/// The closest of the record's names to the normalised query, as a ratio.
pub fn closest_name_ratio(record: &SkillRecord, normalized_query: &Vec<char>) -> (r: EditRatio)
    ensures
        r == best_ratio(normalized_query@, similarity_names(record@)),
{
    let ghost names = similarity_names(record@);
    let id_norm = normalize_chars(record.skill_id.as_str());
    let name_norm = normalize_chars(record.skill_name.as_str());
    let mut best = edit_ratio(normalized_query, &id_norm);
    assert(names.take(1).len() == 1);
    assert(best_ratio(normalized_query@, names.take(1)) == best);
    let by_name = edit_ratio(normalized_query, &name_norm);
    assert(names.take(2).drop_last() =~= names.take(1));
    if ratio_less(by_name, best) {
        best = by_name;
    }
    assert(best == best_ratio(normalized_query@, names.take(2)));
    let mut i: usize = 0;
    while i < record.keywords.len()
        invariant
            i <= record.keywords.len(),
            names == similarity_names(record@),
            names.len() == 2 + record.keywords.len(),
            best == best_ratio(normalized_query@, names.take(i + 2)),
        decreases record.keywords.len() - i,
    {
        let tag = normalize_chars(record.keywords[i].as_str());
        assert(names[i + 2] == spec_normalize(record.keywords@[i as int]@));
        let by_tag = edit_ratio(normalized_query, &tag);
        assert(names.take(i + 3).drop_last() =~= names.take(i + 2));
        if ratio_less(by_tag, best) {
            best = by_tag;
        }
        i = i + 1;
    }
    assert(names.take(record.keywords.len() + 2) =~= names);
    best
}

// ---------------------------------------------------------------------------
// Scoring
// ---------------------------------------------------------------------------

/// The similarity points and reason that the caller derived from the
/// closest name ratio, when that ratio is small enough.
#[derive(Debug, Clone, PartialEq, Eq)]
pub struct SimilarityBonus {
    pub points: i64,
    pub reason: String,
}

pub struct BonusView {
    pub points: i64,
    pub reason: Seq<char>,
}

pub open spec fn bonus_view(b: Option<SimilarityBonus>) -> Option<BonusView> {
    match b {
        Some(b) => Some(BonusView { points: b.points, reason: b.reason@ }),
        None => None,
    }
}

/// The decimal digits of `n`.
pub open spec fn spec_decimal(n: nat) -> Seq<char>
    decreases n,
{
    if n < 10 {
        seq![(48 + n) as char]
    } else {
        spec_decimal(n / 10).push((48 + n % 10) as char)
    }
}

pub fn decimal_chars(n: usize) -> (r: Vec<char>)
    ensures
        r@ == spec_decimal(n as nat),
    decreases n,
{
    let d = (n % 10) as u8;
    let digit = (48u8 + d) as char;
    if n < 10 {
        let mut v: Vec<char> = Vec::new();
        v.push(digit);
        assert(v@ =~= seq![(48 + n) as char]);
        v
    } else {
        let mut v = decimal_chars(n / 10);
        v.push(digit);
        v
    }
}

/// Keeps the first occurrence of each reason, in order.
pub open spec fn spec_dedupe(s: Seq<Seq<char>>) -> Seq<Seq<char>>
    decreases s.len(),
{
    if s.len() == 0 {
        Seq::empty()
    } else {
        let d = spec_dedupe(s.drop_last());
        if d.contains(s.last()) {
            d
        } else {
            d.push(s.last())
        }
    }
}

fn contains_string(v: &Vec<String>, x: &String) -> (r: bool)
    ensures
        r == strings_view(v@).contains(x@),
{
    let mut i: usize = 0;
    while i < v.len()
        invariant
            i <= v.len(),
            forall|k: int| 0 <= k < i ==> v@[k]@ != x@,
        decreases v.len() - i,
    {
        if v[i] == *x {
            assert(strings_view(v@)[i as int] == x@);
            return true;
        }
        i = i + 1;
    }
    proof {
        if strings_view(v@).contains(x@) {
            let k = choose|k: int| 0 <= k < strings_view(v@).len() && strings_view(v@)[k] == x@;
            assert(v@[k]@ == x@);
        }
    }
    false
}

/// Viewing a pushed vector of strings is pushing its view.
pub proof fn lemma_strings_view_push(v: Seq<String>, x: String)
    ensures
        strings_view(v.push(x)) == strings_view(v).push(x@),
{
    assert forall|k: int| 0 <= k < v.len() implies strings_view(v.push(x))[k] == strings_view(
        v,
    )[k] by {
        assert(v.push(x)[k] == v[k]);
    }
    assert(strings_view(v.push(x)) =~= strings_view(v).push(x@));
}

/// Removes repeated reasons, keeping the first of each.
pub fn dedupe(reasons: Vec<String>) -> (r: Vec<String>)
    ensures
        strings_view(r@) == spec_dedupe(strings_view(reasons@)),
{
    let ghost all = strings_view(reasons@);
    let mut out: Vec<String> = Vec::new();
    let mut i: usize = 0;
    while i < reasons.len()
        invariant
            i <= reasons.len(),
            all == strings_view(reasons@),
            strings_view(out@) == spec_dedupe(all.take(i as int)),
        decreases reasons.len() - i,
    {
        assert(all.take(i + 1).drop_last() =~= all.take(i as int));
        assert(all.take(i + 1).last() == reasons@[i as int]@);
        let reason = reasons[i].clone();
        if !contains_string(&out, &reason) {
            proof {
                lemma_strings_view_push(out@, reason);
            }
            out.push(reason);
        }
        i = i + 1;
    }
    assert(all.take(reasons.len() as int) =~= all);
    out
}

/// All tokens of the record's normalised id, name, group, description and
/// keywords.
pub open spec fn field_tokens(rec: RecordView) -> Seq<Seq<char>> {
    spec_tokenize(spec_normalize(rec.skill_id)) + spec_tokenize(spec_normalize(rec.skill_name))
        + spec_tokenize(spec_normalize(rec.group)) + spec_tokenize(spec_normalize(rec.description))
        + rec.keywords.map_values(|k: Seq<char>| spec_tokenize(spec_normalize(k))).flatten_alt()
}

/// How many query tokens, counted with repetition, are field tokens.
pub open spec fn count_hits(qt: Seq<Seq<char>>, ft: Seq<Seq<char>>) -> nat
    decreases qt.len(),
{
    if qt.len() == 0 {
        0
    } else {
        count_hits(qt.drop_last(), ft) + if ft.contains(qt.last()) {
            1nat
        } else {
            0nat
        }
    }
}

pub open spec fn starts_or_ends_with(value: Seq<char>, q: Seq<char>) -> bool {
    is_prefix(q, value) || is_suffix(q, value)
}

pub open spec fn exact_match(rec: RecordView, q: Seq<char>) -> bool {
    spec_normalize(rec.skill_id) == q || spec_normalize(rec.skill_name) == q
}

pub open spec fn affix_match(rec: RecordView, q: Seq<char>) -> bool {
    starts_or_ends_with(spec_normalize(rec.skill_id), q) || starts_or_ends_with(
        spec_normalize(rec.skill_name),
        q,
    )
}

pub open spec fn substring_match(rec: RecordView, q: Seq<char>) -> bool {
    occurs_in(q, spec_normalize(rec.skill_id)) || occurs_in(q, spec_normalize(rec.skill_name))
        || occurs_in(q, spec_normalize(rec.description))
}

pub open spec fn token_hits(rec: RecordView, q: Seq<char>) -> nat {
    count_hits(spec_tokenize(q), field_tokens(rec))
}

pub open spec fn group_match(rec: RecordView, q: Seq<char>) -> bool {
    let g = spec_normalize(rec.group);
    occurs_in(q, g) || exists|i: int|
        0 <= i < spec_tokenize(q).len() && occurs_in(#[trigger] spec_tokenize(q)[i], g)
}

pub open spec fn flag(b: bool, points: int) -> int {
    if b {
        points
    } else {
        0
    }
}

/// The score before it is stored as an `i64`.
pub open spec fn raw_score(rec: RecordView, q: Seq<char>, sim: Option<BonusView>) -> int {
    flag(exact_match(rec, q), 120) + flag(affix_match(rec, q), 65) + flag(
        substring_match(rec, q),
        40,
    ) + 18 * token_hits(rec, q) + (match sim {
        Some(b) => b.points as int,
        None => 0,
    }) + flag(group_match(rec, q), 10)
}

pub open spec fn opt_reason(b: bool, reason: Seq<char>) -> Seq<Seq<char>> {
    if b {
        seq![reason]
    } else {
        Seq::empty()
    }
}

/// The reasons in the order the checks run, before repeats are removed.
pub open spec fn raw_reasons(rec: RecordView, q: Seq<char>, sim: Option<BonusView>) -> Seq<
    Seq<char>,
> {
    opt_reason(exact_match(rec, q), "exact-name"@) + opt_reason(
        affix_match(rec, q),
        "prefix-suffix"@,
    ) + opt_reason(substring_match(rec, q), "substring"@) + opt_reason(
        token_hits(rec, q) > 0,
        "token-overlap:"@ + spec_decimal(token_hits(rec, q)),
    ) + (match sim {
        Some(b) => seq![b.reason],
        None => Seq::empty(),
    }) + opt_reason(group_match(rec, q), "group"@)
}

/// A record's score against a normalised query, and why.
pub struct RankedMatch {
    pub score: i64,
    pub reasons: Vec<String>,
}

fn push_reason(reasons: &mut Vec<String>, reason: String)
    ensures
        strings_view(final(reasons)@) == strings_view(old(reasons)@).push(reason@),
{
    proof {
        lemma_strings_view_push(reasons@, reason);
    }
    reasons.push(reason);
}

fn append_token_views(out: &mut Vec<Vec<char>>, more: &Vec<Vec<char>>)
    ensures
        vviews(final(out)@) == vviews(old(out)@) + vviews(more@),
{
    let ghost start = vviews(out@);
    let mut i: usize = 0;
    while i < more.len()
        invariant
            i <= more.len(),
            vviews(out@) == start + vviews(more@).take(i as int),
        decreases more.len() - i,
    {
        let piece = copy_chars(&more[i]);
        proof {
            lemma_vviews_push(out@, piece);
        }
        out.push(piece);
        assert(vviews(out@) =~= start + vviews(more@).take(i + 1));
        i = i + 1;
    }
    assert(vviews(more@).take(more.len() as int) =~= vviews(more@));
}

fn token_list_contains(list: &Vec<Vec<char>>, x: &Vec<char>) -> (r: bool)
    ensures
        r == vviews(list@).contains(x@),
{
    let mut i: usize = 0;
    while i < list.len()
        invariant
            i <= list.len(),
            forall|k: int| 0 <= k < i ==> list@[k]@ != x@,
        decreases list.len() - i,
    {
        if chars_eq(&list[i], x) {
            assert(vviews(list@)[i as int] == x@);
            return true;
        }
        i = i + 1;
    }
    proof {
        if vviews(list@).contains(x@) {
            let k = choose|k: int| 0 <= k < vviews(list@).len() && vviews(list@)[k] == x@;
            assert(list@[k]@ == x@);
        }
    }
    false
}

fn all_field_tokens(record: &SkillRecord) -> (r: Vec<Vec<char>>)
    ensures
        vviews(r@) == field_tokens(record@),
{
    let mut out: Vec<Vec<char>> = Vec::new();
    let t1 = tokenize_chars(&normalize_chars(record.skill_id.as_str()));
    append_token_views(&mut out, &t1);
    let t2 = tokenize_chars(&normalize_chars(record.skill_name.as_str()));
    append_token_views(&mut out, &t2);
    let t3 = tokenize_chars(&normalize_chars(record.group.as_str()));
    append_token_views(&mut out, &t3);
    let t4 = tokenize_chars(&normalize_chars(record.description.as_str()));
    append_token_views(&mut out, &t4);
    let ghost head = vviews(out@);
    let ghost per = record@.keywords.map_values(|k: Seq<char>| spec_tokenize(spec_normalize(k)));
    let mut i: usize = 0;
    while i < record.keywords.len()
        invariant
            i <= record.keywords.len(),
            per == record@.keywords.map_values(|k: Seq<char>| spec_tokenize(spec_normalize(k))),
            per.len() == record.keywords.len(),
            vviews(out@) == head + per.take(i as int).flatten_alt(),
        decreases record.keywords.len() - i,
    {
        let tk = tokenize_chars(&normalize_chars(record.keywords[i].as_str()));
        assert(per[i as int] == vviews(tk@));
        assert(per.take(i + 1).drop_last() =~= per.take(i as int));
        append_token_views(&mut out, &tk);
        i = i + 1;
    }
    assert(per.take(record.keywords.len() as int) =~= per);
    out
}

fn text_flags(record: &SkillRecord, normalized_query: &Vec<char>) -> (r: (bool, bool, bool))
    ensures
        r.0 == exact_match(record@, normalized_query@),
        r.1 == affix_match(record@, normalized_query@),
        r.2 == substring_match(record@, normalized_query@),
{
    let id_norm = normalize_chars(record.skill_id.as_str());
    let name_norm = normalize_chars(record.skill_name.as_str());
    let summary_norm = normalize_chars(record.description.as_str());
    let exact = chars_eq(&id_norm, normalized_query) || chars_eq(&name_norm, normalized_query);
    let affix = starts_with(&id_norm, normalized_query) || ends_with(&id_norm, normalized_query)
        || starts_with(&name_norm, normalized_query) || ends_with(&name_norm, normalized_query);
    let substring = contains(&id_norm, normalized_query) || contains(&name_norm, normalized_query)
        || contains(&summary_norm, normalized_query);
    (exact, affix, substring)
}

fn count_token_hits(record: &SkillRecord, query_tokens: &Vec<Vec<char>>) -> (hits: usize)
    ensures
        hits == count_hits(vviews(query_tokens@), field_tokens(record@)),
{
    let ghost qt = vviews(query_tokens@);
    let fields = all_field_tokens(record);
    let mut hits: usize = 0;
    let mut i: usize = 0;
    while i < query_tokens.len()
        invariant
            i <= query_tokens.len(),
            hits <= i,
            qt == vviews(query_tokens@),
            vviews(fields@) == field_tokens(record@),
            hits == count_hits(qt.take(i as int), field_tokens(record@)),
        decreases query_tokens.len() - i,
    {
        assert(qt.take(i + 1).drop_last() =~= qt.take(i as int));
        if token_list_contains(&fields, &query_tokens[i]) {
            hits = hits + 1;
        }
        i = i + 1;
    }
    assert(qt.take(query_tokens.len() as int) =~= qt);
    hits
}

fn group_hit(record: &SkillRecord, normalized_query: &Vec<char>, query_tokens: &Vec<Vec<char>>) -> (r: bool)
    requires
        vviews(query_tokens@) == spec_tokenize(normalized_query@),
    ensures
        r == group_match(record@, normalized_query@),
{
    let ghost q = normalized_query@;
    let group_norm = normalize_chars(record.group.as_str());
    let mut group = contains(&group_norm, normalized_query);
    let mut t: usize = 0;
    while t < query_tokens.len()
        invariant
            t <= query_tokens.len(),
            vviews(query_tokens@) == spec_tokenize(q),
            group_norm@ == spec_normalize(record@.group),
            group == (occurs_in(q, group_norm@) || exists|k: int|
                0 <= k < t && occurs_in(#[trigger] spec_tokenize(q)[k], group_norm@)),
        decreases query_tokens.len() - t,
    {
        assert(query_tokens@[t as int]@ == spec_tokenize(q)[t as int]);
        if contains(&group_norm, &query_tokens[t]) {
            group = true;
        }
        t = t + 1;
    }
    group
}

fn overlap_reason(hits: usize) -> (r: String)
    ensures
        r@ == "token-overlap:"@ + spec_decimal(hits as nat),
{
    let mut label: Vec<char> = chars_of("token-overlap:");
    let digits = decimal_chars(hits);
    append_chars(&mut label, &digits);
    string_of(&label)
}

/// Scores one record against a normalised query. The similarity bonus is
/// derived by the caller from `closest_name_ratio`.
#[verifier::rlimit(50)]
#[verifier::spinoff_prover]
pub fn score_skill_text(
    record: &SkillRecord,
    normalized_query: &Vec<char>,
    similarity: &Option<SimilarityBonus>,
) -> (r: RankedMatch)
    ensures
        r.score == raw_score(record@, normalized_query@, bonus_view(*similarity)) as i64,
        strings_view(r.reasons@) == spec_dedupe(
            raw_reasons(record@, normalized_query@, bonus_view(*similarity)),
        ),
{
    let ghost rec = record@;
    let ghost q = normalized_query@;
    let query_tokens = tokenize_chars(normalized_query);
    let (exact, affix, substring) = text_flags(record, normalized_query);
    let hits = count_token_hits(record, &query_tokens);
    let group = group_hit(record, normalized_query, &query_tokens);
    let ghost sim = bonus_view(*similarity);

    let mut score: i128 = 0;
    let mut reasons: Vec<String> = Vec::new();
    if exact {
        score = score + 120;
        push_reason(&mut reasons, String::from_str("exact-name"));
    }
    if affix {
        score = score + 65;
        push_reason(&mut reasons, String::from_str("prefix-suffix"));
    }
    if substring {
        score = score + 40;
        push_reason(&mut reasons, String::from_str("substring"));
    }
    let ghost r3 = opt_reason(exact, "exact-name"@) + opt_reason(affix, "prefix-suffix"@)
        + opt_reason(substring, "substring"@);
    assert(strings_view(reasons@) =~= r3);
    if hits > 0 {
        score = score + 18 * (hits as i128);
        push_reason(&mut reasons, overlap_reason(hits));
    }
    let ghost r4 = r3 + opt_reason(hits > 0, "token-overlap:"@ + spec_decimal(hits as nat));
    assert(strings_view(reasons@) =~= r4);
    match similarity {
        Some(bonus) => {
            score = score + bonus.points as i128;
            push_reason(&mut reasons, bonus.reason.clone());
        },
        None => {},
    }
    let ghost r5 = r4 + (match sim {
        Some(b) => seq![b.reason],
        None => Seq::<Seq<char>>::empty(),
    });
    assert(strings_view(reasons@) =~= r5);
    if group {
        score = score + 10;
        push_reason(&mut reasons, String::from_str("group"));
    }
    assert(strings_view(reasons@) =~= raw_reasons(rec, q, sim));
    assert(score == raw_score(rec, q, sim));
    let deduped = dedupe(reasons);
    RankedMatch { score: score as i64, reasons: deduped }
}

// ---------------------------------------------------------------------------
// Ranking
// ---------------------------------------------------------------------------

/// Lexicographic order on code points, which is the order of `str`'s `Ord`
/// on the UTF-8 bytes.
pub open spec fn chars_lt(a: Seq<char>, b: Seq<char>) -> bool
    decreases a.len(),
{
    if b.len() == 0 {
        false
    } else if a.len() == 0 {
        true
    } else if a[0] != b[0] {
        a[0] < b[0]
    } else {
        chars_lt(a.drop_first(), b.drop_first())
    }
}

proof fn lemma_skip_step(a: Seq<char>, i: int)
    requires
        0 <= i < a.len(),
    ensures
        a.skip(i)[0] == a[i],
        a.skip(i).drop_first() =~= a.skip(i + 1),
        a.skip(i).len() > 0,
{
}

/// Whether `a` sorts before `b` in code-point order.
pub fn chars_less(a: &Vec<char>, b: &Vec<char>) -> (r: bool)
    ensures
        r == chars_lt(a@, b@),
{
    let mut i: usize = 0;
    assert(a@.skip(0) =~= a@);
    assert(b@.skip(0) =~= b@);
    while i < a.len() && i < b.len()
        invariant
            i <= a.len(),
            i <= b.len(),
            chars_lt(a@, b@) == chars_lt(a@.skip(i as int), b@.skip(i as int)),
        decreases a.len() - i,
    {
        proof {
            lemma_skip_step(a@, i as int);
            lemma_skip_step(b@, i as int);
        }
        if a[i] != b[i] {
            return a[i] < b[i];
        }
        i = i + 1;
    }
    i < b.len()
}

/// `a` ranks before `b`: a higher score first, then the smaller skill id.
pub open spec fn hit_before(a: HitView, b: HitView) -> bool {
    a.score > b.score || (a.score == b.score && chars_lt(a.skill_id, b.skill_id))
}

/// Where a later hit goes in a ranked list: before the first hit that it
/// ranks before, so that hits which tie keep their order.
pub open spec fn insert_pos(sorted: Seq<HitView>, x: HitView) -> int
    decreases sorted.len(),
{
    if sorted.len() == 0 {
        0
    } else if hit_before(x, sorted[0]) {
        0
    } else {
        1 + insert_pos(sorted.drop_first(), x)
    }
}

/// The stable sort of the hits by rank.
pub open spec fn sort_hits(s: Seq<HitView>) -> Seq<HitView>
    decreases s.len(),
{
    if s.len() == 0 {
        Seq::empty()
    } else {
        let sorted = sort_hits(s.drop_last());
        sorted.insert(insert_pos(sorted, s.last()), s.last())
    }
}

pub open spec fn bonuses_view(v: Seq<Option<SimilarityBonus>>) -> Seq<Option<BonusView>> {
    v.map_values(|b: Option<SimilarityBonus>| bonus_view(b))
}

/// The hit that a record yields against a normalised query.
pub open spec fn hit_of(rec: RecordView, q: Seq<char>, sim: Option<BonusView>) -> HitView {
    HitView {
        skill_id: rec.skill_id,
        skill_name: rec.skill_name,
        description: rec.description,
        group: rec.group,
        score: raw_score(rec, q, sim) as i64,
        reasons: spec_dedupe(raw_reasons(rec, q, sim)),
    }
}

/// The hits of the records with a non-zero score, in record order.
pub open spec fn scored_hits(
    recs: Seq<RecordView>,
    q: Seq<char>,
    sims: Seq<Option<BonusView>>,
) -> Seq<HitView>
    decreases recs.len(),
{
    if recs.len() == 0 {
        Seq::empty()
    } else {
        let prev = scored_hits(recs.drop_last(), q, sims.drop_last());
        let h = hit_of(recs.last(), q, sims.last());
        if h.score == 0 {
            prev
        } else {
            prev.push(h)
        }
    }
}

/// What `search_skills` returns: nothing for a query that normalises to
/// nothing; otherwise the non-zero hits, ranked, at most `limit` of them.
pub open spec fn spec_search(
    recs: Seq<RecordView>,
    query: Seq<char>,
    sims: Seq<Option<BonusView>>,
    limit: usize,
) -> Seq<HitView> {
    let q = spec_normalize(query);
    if q.len() == 0 {
        Seq::empty()
    } else {
        let ranked = sort_hits(scored_hits(recs, q, sims));
        if limit < ranked.len() {
            ranked.take(limit as int)
        } else {
            ranked
        }
    }
}

proof fn lemma_insert_pos_at(sorted: Seq<HitView>, x: HitView, j: int)
    requires
        0 <= j <= sorted.len(),
        forall|k: int| 0 <= k < j ==> !hit_before(x, #[trigger] sorted[k]),
        j == sorted.len() || hit_before(x, sorted[j]),
    ensures
        insert_pos(sorted, x) == j,
    decreases j,
{
    if j > 0 {
        assert(!hit_before(x, sorted[0]));
        assert forall|k: int| 0 <= k < j - 1 implies !hit_before(
            x,
            #[trigger] sorted.drop_first()[k],
        ) by {
            assert(sorted.drop_first()[k] == sorted[k + 1]);
        }
        if j < sorted.len() {
            assert(sorted.drop_first()[j - 1] == sorted[j]);
        }
        lemma_insert_pos_at(sorted.drop_first(), x, j - 1);
    }
}

proof fn lemma_hits_view_insert(v: Seq<SkillSearchResult>, j: int, x: SkillSearchResult)
    requires
        0 <= j <= v.len(),
    ensures
        hits_view(v.insert(j, x)) == hits_view(v).insert(j, x@),
{
    assert(hits_view(v.insert(j, x)) =~= hits_view(v).insert(j, x@));
}

fn hit_ranks_before(x: &SkillSearchResult, y: &SkillSearchResult) -> (r: bool)
    ensures
        r == hit_before(x@, y@),
{
    if x.score > y.score {
        return true;
    }
    if x.score < y.score {
        return false;
    }
    let xa = chars_of(x.skill_id.as_str());
    let ya = chars_of(y.skill_id.as_str());
    chars_less(&xa, &ya)
}

fn insert_ranked(sorted: &mut Vec<SkillSearchResult>, hit: SkillSearchResult)
    ensures
        hits_view(final(sorted)@) == hits_view(old(sorted)@).insert(
            insert_pos(hits_view(old(sorted)@), hit@),
            hit@,
        ),
{
    let ghost hv = hits_view(sorted@);
    let mut j: usize = 0;
    while j < sorted.len()
        invariant
            j <= sorted.len(),
            hv == hits_view(sorted@),
            forall|k: int| 0 <= k < j ==> !hit_before(hit@, #[trigger] hv[k]),
        ensures
            j <= sorted.len(),
            forall|k: int| 0 <= k < j ==> !hit_before(hit@, #[trigger] hv[k]),
            j == sorted.len() || hit_before(hit@, hv[j as int]),
        decreases sorted.len() - j,
    {
        if hit_ranks_before(&hit, &sorted[j]) {
            break;
        }
        j = j + 1;
    }
    proof {
        lemma_insert_pos_at(hv, hit@, j as int);
        lemma_hits_view_insert(sorted@, j as int, hit);
    }
    sorted.insert(j, hit);
}

/// Ranks the records against the query. `similarity[i]` is the bonus that
/// the caller derived from `closest_name_ratio` for `records[i]`.
pub fn search_skills(
    records: &Vec<SkillRecord>,
    query: &str,
    limit: usize,
    similarity: &Vec<Option<SimilarityBonus>>,
) -> (r: Vec<SkillSearchResult>)
    requires
        similarity.len() == records.len(),
    ensures
        hits_view(r@) == spec_search(
            records_view(records@),
            query@,
            bonuses_view(similarity@),
            limit,
        ),
        forall|i: int, j: int| 0 <= i <= j < r@.len() ==> (#[trigger] r@[i]).score >= (#[trigger] r@[j]).score,
{
    let ghost recs = records_view(records@);
    let ghost sims = bonuses_view(similarity@);
    let normalized_query = normalize_chars(query);
    if normalized_query.len() == 0 {
        return Vec::new();
    }
    let ghost q = normalized_query@;
    let mut sorted: Vec<SkillSearchResult> = Vec::new();
    let mut i: usize = 0;
    while i < records.len()
        invariant
            i <= records.len(),
            similarity.len() == records.len(),
            recs == records_view(records@),
            sims == bonuses_view(similarity@),
            q == normalized_query@,
            hits_view(sorted@) == sort_hits(scored_hits(recs.take(i as int), q, sims.take(i as int))),
        decreases records.len() - i,
    {
        let record = &records[i];
        assert(recs.take(i + 1).drop_last() =~= recs.take(i as int));
        assert(sims.take(i + 1).drop_last() =~= sims.take(i as int));
        assert(recs.take(i + 1).last() == record@);
        assert(sims.take(i + 1).last() == bonus_view(similarity@[i as int]));
        let ranked = score_skill_text(record, &normalized_query, &similarity[i]);
        let ghost h = hit_of(record@, q, sims[i as int]);
        let ghost prev = scored_hits(recs.take(i as int), q, sims.take(i as int));
        assert(ranked.score == h.score);
        if ranked.score != 0 {
            let hit = SkillSearchResult {
                skill_id: record.skill_id.clone(),
                skill_name: record.skill_name.clone(),
                description: record.description.clone(),
                group: record.group.clone(),
                score: ranked.score,
                reasons: ranked.reasons,
            };
            assert(hit@ =~= h);
            assert(prev.push(h).drop_last() =~= prev);
            insert_ranked(&mut sorted, hit);
        }
        i = i + 1;
    }
    assert(recs.take(records.len() as int) =~= recs);
    assert(sims.take(records.len() as int) =~= sims);
    sorted.truncate(limit);
    proof {
        lemma_search_best_first(recs, query@, sims, limit);
        let out = hits_view(sorted@);
        assert(out == spec_search(recs, query@, sims, limit));
        assert(scores_descending(out));
        assert forall|i: int, j: int| 0 <= i <= j < sorted@.len() implies (#[trigger] sorted@[i]).score
            >= (#[trigger] sorted@[j]).score by {
            assert(out[i] == sorted@[i]@ && out[j] == sorted@[j]@);
            assert(out[i].score >= out[j].score);
        }
    }
    sorted
}

// ---------------------------------------------------------------------------
// Laws of the ranking
// ---------------------------------------------------------------------------

/// No hit is directly followed by one that outranks it.
pub open spec fn ranked(s: Seq<HitView>) -> bool {
    forall|i: int, j: int|
        0 <= i && j == i + 1 && j < s.len() ==> !hit_before(#[trigger] s[j], #[trigger] s[i])
}

/// Code-point order is asymmetric.
pub proof fn lemma_chars_lt_asymmetric(a: Seq<char>, b: Seq<char>)
    ensures
        chars_lt(a, b) ==> !chars_lt(b, a),
    decreases a.len(),
{
    if a.len() > 0 && b.len() > 0 && a[0] == b[0] {
        lemma_chars_lt_asymmetric(a.drop_first(), b.drop_first());
    }
}

/// Of two hits, at most one ranks before the other.
pub proof fn lemma_hit_before_asymmetric(a: HitView, b: HitView)
    ensures
        hit_before(a, b) ==> !hit_before(b, a),
{
    lemma_chars_lt_asymmetric(a.skill_id, b.skill_id);
}

proof fn lemma_insert_pos_props(sorted: Seq<HitView>, x: HitView)
    ensures
        0 <= insert_pos(sorted, x) <= sorted.len(),
        forall|k: int| 0 <= k < insert_pos(sorted, x) ==> !hit_before(x, #[trigger] sorted[k]),
        insert_pos(sorted, x) == sorted.len() || hit_before(x, sorted[insert_pos(sorted, x)]),
    decreases sorted.len(),
{
    if sorted.len() > 0 && !hit_before(x, sorted[0]) {
        let rest = sorted.drop_first();
        lemma_insert_pos_props(rest, x);
        assert forall|k: int| 0 <= k < insert_pos(sorted, x) implies !hit_before(
            x,
            #[trigger] sorted[k],
        ) by {
            if k > 0 {
                assert(sorted[k] == rest[k - 1]);
            }
        }
        if insert_pos(rest, x) < rest.len() {
            assert(sorted[insert_pos(sorted, x)] == rest[insert_pos(rest, x)]);
        }
    }
}

/// The ranking sort yields a ranked list.
pub proof fn lemma_sort_hits_ranked(s: Seq<HitView>)
    ensures
        ranked(sort_hits(s)),
        sort_hits(s).len() == s.len(),
    decreases s.len(),
{
    if s.len() > 0 {
        let sorted = sort_hits(s.drop_last());
        lemma_sort_hits_ranked(s.drop_last());
        let x = s.last();
        let p = insert_pos(sorted, x);
        lemma_insert_pos_props(sorted, x);
        let r = sorted.insert(p, x);
        assert(r == sort_hits(s));
        assert forall|i: int, j: int| 0 <= i && j == i + 1 && j < r.len() implies !hit_before(
            #[trigger] r[j],
            #[trigger] r[i],
        ) by {
            if j < p {
                assert(r[i] == sorted[i] && r[j] == sorted[j]);
            } else if j == p {
                assert(r[i] == sorted[i] && r[j] == x);
            } else if i == p {
                assert(r[i] == x && r[j] == sorted[p]);
                lemma_hit_before_asymmetric(x, sorted[p]);
            } else {
                assert(r[i] == sorted[i - 1] && r[j] == sorted[j - 1]);
            }
        }
    }
}

/// The ranking sort only reorders: it keeps every hit, as often as it occurs.
pub proof fn lemma_sort_hits_permutes(s: Seq<HitView>)
    ensures
        sort_hits(s).to_multiset() == s.to_multiset(),
    decreases s.len(),
{
    broadcast use vstd::seq_lib::to_multiset_insert, vstd::seq_lib::to_multiset_build;

    if s.len() > 0 {
        let sorted = sort_hits(s.drop_last());
        lemma_sort_hits_permutes(s.drop_last());
        lemma_insert_pos_props(sorted, s.last());
        assert(s.drop_last().push(s.last()) =~= s);
    } else {
        assert(sort_hits(s) =~= s);
    }
}

/// Only records with a non-zero score become hits.
pub proof fn lemma_scored_hits_nonzero(
    recs: Seq<RecordView>,
    q: Seq<char>,
    sims: Seq<Option<BonusView>>,
)
    ensures
        forall|k: int|
            0 <= k < scored_hits(recs, q, sims).len() ==> #[trigger] scored_hits(
                recs,
                q,
                sims,
            )[k].score != 0,
    decreases recs.len(),
{
    if recs.len() > 0 {
        lemma_scored_hits_nonzero(recs.drop_last(), q, sims.drop_last());
        let prev = scored_hits(recs.drop_last(), q, sims.drop_last());
        let h = hit_of(recs.last(), q, sims.last());
        if h.score != 0 {
            assert forall|k: int| 0 <= k < prev.push(h).len() implies #[trigger] prev.push(h)[k].score
                != 0 by {
                if k < prev.len() {
                    assert(prev.push(h)[k] == prev[k]);
                }
            }
        }
    }
}

/// Search results are ranked (higher score first, then skill id), hold
/// only hits with a non-zero score, are a reordering of those hits when no
/// limit cuts them, never exceed the limit, and are empty for a query that
/// normalises to nothing.
pub proof fn lemma_search_results_ranked(
    recs: Seq<RecordView>,
    query: Seq<char>,
    sims: Seq<Option<BonusView>>,
    limit: usize,
)
    ensures
        ranked(spec_search(recs, query, sims, limit)),
        spec_search(recs, query, sims, limit).len() <= limit,
        forall|k: int|
            0 <= k < spec_search(recs, query, sims, limit).len() ==> #[trigger] spec_search(
                recs,
                query,
                sims,
                limit,
            )[k].score != 0,
        spec_normalize(query).len() > 0 && scored_hits(recs, spec_normalize(query), sims).len()
            <= limit ==> spec_search(recs, query, sims, limit).to_multiset() == scored_hits(
            recs,
            spec_normalize(query),
            sims,
        ).to_multiset(),
        spec_normalize(query).len() == 0 ==> spec_search(recs, query, sims, limit).len() == 0,
{
    let q = spec_normalize(query);
    if q.len() > 0 {
        let hits = scored_hits(recs, q, sims);
        let sorted = sort_hits(hits);
        lemma_sort_hits_ranked(hits);
        lemma_sort_hits_permutes(hits);
        lemma_scored_hits_nonzero(recs, q, sims);
        let out = spec_search(recs, query, sims, limit);
        assert forall|k: int| 0 <= k < sorted.len() implies #[trigger] sorted[k].score != 0 by {
            broadcast use vstd::seq_lib::to_multiset_contains;

            assert(sorted.contains(sorted[k]));
            assert(hits.to_multiset().contains(sorted[k]));
            assert(hits.contains(sorted[k]));
        }
        assert forall|i: int, j: int| 0 <= i && j == i + 1 && j < out.len() implies !hit_before(
            #[trigger] out[j],
            #[trigger] out[i],
        ) by {
            assert(out[i] == sorted[i] && out[j] == sorted[j]);
        }
        assert forall|k: int| 0 <= k < out.len() implies #[trigger] out[k].score != 0 by {
            assert(out[k] == sorted[k]);
        }
    }
}

/// Scores never rise from one hit to a later one.
pub open spec fn scores_descending(s: Seq<HitView>) -> bool {
    forall|i: int, j: int| 0 <= i <= j < s.len() ==> (#[trigger] s[i]).score >= (#[trigger] s[j]).score
}

/// The ranking sort puts hits in order of falling score.
pub proof fn lemma_sort_hits_scores(s: Seq<HitView>)
    ensures
        scores_descending(sort_hits(s)),
    decreases s.len(),
{
    if s.len() > 0 {
        let sorted = sort_hits(s.drop_last());
        lemma_sort_hits_scores(s.drop_last());
        let x = s.last();
        let p = insert_pos(sorted, x);
        lemma_insert_pos_props(sorted, x);
        let r = sorted.insert(p, x);
        assert(r == sort_hits(s));
        assert forall|i: int, j: int| 0 <= i <= j < r.len() implies (#[trigger] r[i]).score >= (
        #[trigger] r[j]).score by {
            if j < p {
                assert(r[i] == sorted[i] && r[j] == sorted[j]);
            } else if i < p && j == p {
                assert(r[i] == sorted[i] && r[j] == x);
                assert(!hit_before(x, sorted[i]));
            } else if i < p {
                assert(r[i] == sorted[i] && r[j] == sorted[j - 1]);
            } else if i == p && j == p {
            } else if i == p {
                assert(r[i] == x && r[j] == sorted[j - 1]);
                assert(hit_before(x, sorted[p]));
                assert(sorted[p].score >= sorted[j - 1].score);
            } else {
                assert(r[i] == sorted[i - 1] && r[j] == sorted[j - 1]);
            }
        }
    }
}

/// Search results come in order of falling score, and when there is any
/// hit and the limit lets one through, the first result scores at least as
/// high as every hit.
pub proof fn lemma_search_best_first(
    recs: Seq<RecordView>,
    query: Seq<char>,
    sims: Seq<Option<BonusView>>,
    limit: usize,
)
    ensures
        scores_descending(spec_search(recs, query, sims, limit)),
        forall|k: int|
            spec_normalize(query).len() > 0 && 0 < limit && 0 <= k < scored_hits(
                recs,
                spec_normalize(query),
                sims,
            ).len() ==> spec_search(recs, query, sims, limit).len() > 0 && spec_search(
                recs,
                query,
                sims,
                limit,
            )[0].score >= (#[trigger] scored_hits(recs, spec_normalize(query), sims)[k]).score,
{
    let q = spec_normalize(query);
    let out = spec_search(recs, query, sims, limit);
    if q.len() > 0 {
        let hits = scored_hits(recs, q, sims);
        let sorted = sort_hits(hits);
        lemma_sort_hits_scores(hits);
        lemma_sort_hits_permutes(hits);
        lemma_sort_hits_ranked(hits);
        assert forall|i: int, j: int| 0 <= i <= j < out.len() implies (#[trigger] out[i]).score >= (
        #[trigger] out[j]).score by {
            assert(out[i] == sorted[i] && out[j] == sorted[j]);
        }
        assert forall|k: int| 0 < limit && 0 <= k < hits.len() implies out.len() > 0 && out[0].score >= (
        #[trigger] hits[k]).score by {
            broadcast use vstd::seq_lib::to_multiset_contains;

            assert(hits.contains(hits[k]));
            assert(sorted.to_multiset().contains(hits[k]));
            assert(sorted.contains(hits[k]));
            let t = choose|t: int| 0 <= t < sorted.len() && sorted[t] == hits[k];
            assert(out[0] == sorted[0]);
            assert(sorted[0].score >= sorted[t].score);
        }
    }
}


proof fn lemma_scored_hits_from(recs: Seq<RecordView>, q: Seq<char>, sims: Seq<Option<BonusView>>)
    requires
        recs.len() == sims.len(),
    ensures
        forall|k: int|
            0 <= k < scored_hits(recs, q, sims).len() ==> exists|j: int|
                0 <= j < recs.len() && #[trigger] scored_hits(recs, q, sims)[k] == hit_of(recs[j], q, sims[j]),
    decreases recs.len(),
{
    if recs.len() > 0 {
        let r0 = recs.drop_last();
        let s0 = sims.drop_last();
        lemma_scored_hits_from(r0, q, s0);
        let prev = scored_hits(r0, q, s0);
        let out = scored_hits(recs, q, sims);
        let last = recs.len() - 1;
        assert forall|k: int| 0 <= k < out.len() implies exists|j: int|
            0 <= j < recs.len() && #[trigger] out[k] == hit_of(recs[j], q, sims[j]) by {
            if k < prev.len() {
                assert(out[k] == prev[k]);
                let j = choose|j: int| 0 <= j < r0.len() && prev[k] == hit_of(r0[j], q, s0[j]);
                assert(r0[j] == recs[j] && s0[j] == sims[j]);
            } else {
                assert(out[k] == hit_of(recs[last], q, sims[last]));
            }
        }
    }
}

/// Scores in the results are positive when no similarity bonus is negative
/// and no record's score exceeds `i64::MAX`, as the bonus derived from the
/// closest-name ratio never is.
pub proof fn lemma_search_scores_positive(
    recs: Seq<RecordView>,
    query: Seq<char>,
    sims: Seq<Option<BonusView>>,
    limit: usize,
)
    requires
        recs.len() == sims.len(),
        forall|i: int| 0 <= i < sims.len() ==> (#[trigger] sims[i] matches Some(b) ==> b.points >= 0),
        forall|i: int|
            0 <= i < recs.len() ==> #[trigger] raw_score(recs[i], spec_normalize(query), sims[i])
                <= i64::MAX,
    ensures
        forall|k: int|
            0 <= k < spec_search(recs, query, sims, limit).len() ==> #[trigger] spec_search(
                recs,
                query,
                sims,
                limit,
            )[k].score > 0,
{
    let q = spec_normalize(query);
    if q.len() > 0 {
        let hits = scored_hits(recs, q, sims);
        let sorted = sort_hits(hits);
        lemma_sort_hits_permutes(hits);
        lemma_scored_hits_nonzero(recs, q, sims);
        lemma_scored_hits_from(recs, q, sims);
        let out = spec_search(recs, query, sims, limit);
        assert forall|k: int| 0 <= k < out.len() implies #[trigger] out[k].score > 0 by {
            broadcast use vstd::seq_lib::to_multiset_contains;

            assert(out[k] == sorted[k]);
            assert(sorted.contains(sorted[k]));
            assert(hits.to_multiset().contains(sorted[k]));
            assert(hits.contains(sorted[k]));
            let i = choose|i: int| 0 <= i < hits.len() && hits[i] == sorted[k];
            let j = choose|j: int| 0 <= j < recs.len() && hits[i] == hit_of(recs[j], q, sims[j]);
            assert(hits[i].score != 0);
            assert(sims[j] matches Some(b) ==> b.points >= 0);
            assert(raw_score(recs[j], q, sims[j]) >= 0);
            assert(raw_score(recs[j], q, sims[j]) <= i64::MAX);
        }
    }
}

} // verus!
