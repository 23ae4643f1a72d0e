//! Runtime configuration: the storage layout under a shelf root, the
//! install / index / watch policies with their defaults, and how the
//! `SKILL_SHELF_*` variables override them.
//!
//! Paths are held as strings. Resolving the shelf root to an absolute,
//! canonical path and reading the environment happen around this module.

use crate::text::{append_chars, chars_of, string_of};
use vstd::prelude::*;

verus! {

#[derive(Debug, Clone, PartialEq, Eq)]
pub struct SkillShelfStorageLayout {
    pub shelf_root: String,
    pub config_root: String,
    pub group_catalog_path: String,
    pub packages_root: String,
    pub index_root: String,
    pub group_list_path: String,
    pub groups_root: String,
    pub skills_root: String,
    pub staging_root: String,
    pub staging_imports_root: String,
    pub staging_repaired_root: String,
    pub logs_root: String,
}

#[derive(Debug, Clone, PartialEq, Eq)]
pub struct InstallPolicy {
    pub accept_package_directories: bool,
    pub accept_raw_markdown: bool,
    pub package_precedence: String,
    pub raw_markdown_requires_frontmatter: bool,
}

#[derive(Debug, Clone, PartialEq, Eq)]
pub struct IndexPolicy {
    pub default_search_result_limit: usize,
    pub max_keywords_per_skill: usize,
    pub max_related_skills: usize,
}

#[derive(Debug, Clone, PartialEq, Eq)]
pub struct WatchPolicy {
    pub enabled: bool,
    pub use_polling: bool,
    pub polling_interval_ms: u64,
    pub await_write_stability_ms: u64,
    pub await_write_poll_ms: u64,
    pub sync_delete: bool,
}

#[derive(Debug, Clone, PartialEq, Eq)]
pub struct SkillShelfRuntimeConfig {
    pub storage: SkillShelfStorageLayout,
    pub install_policy: InstallPolicy,
    pub index_policy: IndexPolicy,
    pub watch_policy: WatchPolicy,
}

/// Packages and raw markdown are both accepted, a package wins over a raw
/// file of the same id, and raw markdown needs a name and a description.
pub fn default_install_policy() -> (p: InstallPolicy)
    ensures
        p.accept_package_directories,
        p.accept_raw_markdown,
        p.package_precedence@ == "package-first"@,
        p.raw_markdown_requires_frontmatter,
{
    InstallPolicy {
        accept_package_directories: true,
        accept_raw_markdown: true,
        package_precedence: String::from_str("package-first"),
        raw_markdown_requires_frontmatter: true,
    }
}

pub fn default_index_policy() -> (p: IndexPolicy)
    ensures
        p.default_search_result_limit == 8,
        p.max_keywords_per_skill == 12,
        p.max_related_skills == 5,
{
    IndexPolicy { default_search_result_limit: 8, max_keywords_per_skill: 12, max_related_skills: 5 }
}

pub fn default_watch_policy() -> (p: WatchPolicy)
    ensures
        p.enabled,
        p.use_polling,
        p.polling_interval_ms == 100,
        p.await_write_stability_ms == 300,
        p.await_write_poll_ms == 50,
        p.sync_delete,
{
    WatchPolicy {
        enabled: true,
        use_polling: true,
        polling_interval_ms: 100,
        await_write_stability_ms: 300,
        await_write_poll_ms: 50,
        sync_delete: true,
    }
}

// ---------------------------------------------------------------------------
// Paths
// ---------------------------------------------------------------------------

/// `PathBuf::join` with a relative name: a `/` goes between the two unless
/// the base is empty or already ends with one.
pub open spec fn path_join(base: Seq<char>, name: Seq<char>) -> Seq<char> {
    if base.len() == 0 || base.last() == '/' {
        base + name
    } else {
        base + seq!['/'] + name
    }
}

pub fn join_path(base: &str, name: &str) -> (r: String)
    ensures
        r@ == path_join(base@, name@),
{
    let mut out = chars_of(base);
    let n = out.len();
    if n > 0 && out[n - 1] != '/' {
        out.push('/');
    }
    append_chars(&mut out, &chars_of(name));
    string_of(&out)
}

/// Where everything lives under a shelf root.
pub open spec fn layout_of(l: SkillShelfStorageLayout, root: Seq<char>) -> bool {
    let config = path_join(root, "config"@);
    let index = path_join(root, "index"@);
    let staging = path_join(root, "staging"@);
    &&& l.shelf_root@ == root
    &&& l.config_root@ == config
    &&& l.group_catalog_path@ == path_join(config, "groups.json"@)
    &&& l.packages_root@ == path_join(root, "packages"@)
    &&& l.index_root@ == index
    &&& l.group_list_path@ == path_join(index, "group-list.json"@)
    &&& l.groups_root@ == path_join(index, "groups"@)
    &&& l.skills_root@ == path_join(index, "skills"@)
    &&& l.staging_root@ == staging
    &&& l.staging_imports_root@ == path_join(staging, "imports"@)
    &&& l.staging_repaired_root@ == path_join(staging, "repaired"@)
    &&& l.logs_root@ == path_join(root, "logs"@)
}

/// The storage layout under an already resolved shelf root.
pub fn storage_layout(shelf_root: &str) -> (l: SkillShelfStorageLayout)
    ensures
        layout_of(l, shelf_root@),
{
    let config_root = join_path(shelf_root, "config");
    let index_root = join_path(shelf_root, "index");
    let staging_root = join_path(shelf_root, "staging");
    let group_catalog_path = join_path(config_root.as_str(), "groups.json");
    let group_list_path = join_path(index_root.as_str(), "group-list.json");
    let groups_root = join_path(index_root.as_str(), "groups");
    let skills_root = join_path(index_root.as_str(), "skills");
    let staging_imports_root = join_path(staging_root.as_str(), "imports");
    let staging_repaired_root = join_path(staging_root.as_str(), "repaired");
    SkillShelfStorageLayout {
        shelf_root: string_of(&chars_of(shelf_root)),
        config_root,
        group_catalog_path,
        packages_root: join_path(shelf_root, "packages"),
        index_root,
        group_list_path,
        groups_root,
        skills_root,
        staging_root,
        staging_imports_root,
        staging_repaired_root,
        logs_root: join_path(shelf_root, "logs"),
    }
}

// ---------------------------------------------------------------------------
// Environment overrides
// ---------------------------------------------------------------------------

/// The value of the first variable of that name.
pub open spec fn lookup_var(vars: Seq<(Seq<char>, Seq<char>)>, name: Seq<char>) -> Option<
    Seq<char>,
>
    decreases vars.len(),
{
    if vars.len() == 0 {
        None
    } else if vars[0].0 == name {
        Some(vars[0].1)
    } else {
        lookup_var(vars.drop_first(), name)
    }
}

pub open spec fn vars_view(vars: Seq<(String, String)>) -> Seq<(Seq<char>, Seq<char>)> {
    vars.map_values(|p: (String, String)| (p.0@, p.1@))
}

/// A switch is on unless its value is exactly `0`.
pub open spec fn spec_flag(value: Option<Seq<char>>, default: bool) -> bool {
    match value {
        Some(v) => v != "0"@,
        None => default,
    }
}

pub open spec fn is_digit(c: char) -> bool {
    '0' <= c && c <= '9'
}

pub open spec fn all_digits(d: Seq<char>) -> bool {
    forall|i: int| 0 <= i < d.len() ==> is_digit(#[trigger] d[i])
}

pub open spec fn digits_value(s: Seq<char>) -> nat
    decreases s.len(),
{
    if s.len() == 0 {
        0
    } else {
        digits_value(s.drop_last()) * 10 + ((s.last() as nat) - ('0' as nat)) as nat
    }
}

/// What `str::parse` accepts for an unsigned integer: an optional `+`, then
/// one or more ASCII digits.
pub open spec fn spec_parse_unsigned(s: Seq<char>) -> Option<nat> {
    let d = if s.len() > 0 && s[0] == '+' {
        s.drop_first()
    } else {
        s
    };
    if d.len() > 0 && all_digits(d) {
        Some(digits_value(d))
    } else {
        None
    }
}

proof fn lemma_digits_value_grows(s: Seq<char>, j: int)
    requires
        0 <= j <= s.len(),
        forall|i: int| 0 <= i < s.len() ==> is_digit(#[trigger] s[i]),
    ensures
        digits_value(s.take(j)) <= digits_value(s),
    decreases s.len() - j,
{
    if j < s.len() {
        assert(s.drop_last().take(j) =~= s.take(j));
        lemma_digits_value_grows(s.drop_last(), j);
    } else {
        assert(s.take(j) =~= s);
    }
}

/// `str::parse::<u64>`.
pub fn parse_u64(s: &str) -> (r: Option<u64>)
    ensures
        r == (match spec_parse_unsigned(s@) {
            Some(n) => if n <= u64::MAX {
                Some(n as u64)
            } else {
                None
            },
            None => None,
        }),
{
    let c = chars_of(s);
    let start: usize = if c.len() > 0 && c[0] == '+' {
        1
    } else {
        0
    };
    let ghost d = if c@.len() > 0 && c@[0] == '+' {
        c@.drop_first()
    } else {
        c@
    };
    assert(d =~= c@.skip(start as int));
    if start >= c.len() {
        assert(d.len() == 0);
        return None;
    }
    let mut value: u64 = 0;
    let mut i: usize = start;
    while i < c.len()
        invariant
            start <= i <= c.len(),
            c@ == s@,
            d == (if s@.len() > 0 && s@[0] == '+' {
                s@.drop_first()
            } else {
                s@
            }),
            d == c@.skip(start as int),
            d.len() > 0,
            forall|k: int| 0 <= k < i - start ==> is_digit(#[trigger] d[k]),
            value == digits_value(d.take(i - start)),
        decreases c.len() - i,
    {
        let ch = c[i];
        assert(ch == d[i - start]);
        if !('0' <= ch && ch <= '9') {
            assert(!is_digit(d[i - start]));
            assert(!all_digits(d));
            assert(spec_parse_unsigned(s@) is None);
            return None;
        }
        let digit = (ch as u32 - '0' as u32) as u64;
        assert(d.take(i + 1 - start).drop_last() =~= d.take(i - start));
        if value > (u64::MAX - digit) / 10 {
            // every later digit only makes the value larger
            let mut k: usize = i + 1;
            while k < c.len()
                invariant
                    start <= i < k <= c.len(),
                    c@ == s@,
                    d == (if s@.len() > 0 && s@[0] == '+' {
                        s@.drop_first()
                    } else {
                        s@
                    }),
                    d == c@.skip(start as int),
                    d.len() == c.len() - start,
                    forall|m: int| 0 <= m < k - start ==> is_digit(#[trigger] d[m]),
                decreases c.len() - k,
            {
                let ck = c[k];
                assert(ck == d[k - start]);
                if !('0' <= ck && ck <= '9') {
                    assert(!is_digit(d[k - start]));
                    assert(!all_digits(d));
                    assert(spec_parse_unsigned(s@) is None);
                    return None;
                }
                k = k + 1;
            }
            proof {
                assert(value * 10 + digit > u64::MAX) by (nonlinear_arith)
                    requires
                        value > (u64::MAX - digit) / 10,
                        digit <= 9,
                ;
                assert(digits_value(d.take(i + 1 - start)) == value * 10 + digit);
                lemma_digits_value_grows(d, i + 1 - start);
            }
            return None;
        }
        value = value * 10 + digit;
        i = i + 1;
    }
    assert(d.take(i - start) =~= d);
    Some(value)
}

/// `str::parse::<usize>`.
pub fn parse_usize(s: &str) -> (r: Option<usize>)
    ensures
        r == (match spec_parse_unsigned(s@) {
            Some(n) => if n <= usize::MAX {
                Some(n as usize)
            } else {
                None
            },
            None => None,
        }),
{
    match parse_u64(s) {
        Some(v) => {
            if (v as u128) <= (usize::MAX as u128) {
                Some(v as usize)
            } else {
                None
            }
        },
        None => {
            proof {
                assert(usize::MAX <= u64::MAX);
            }
            None
        },
    }
}

/// The value of the first variable called `name`.
pub fn find_var(vars: &Vec<(String, String)>, name: &str) -> (r: Option<String>)
    ensures
        match r {
            Some(v) => lookup_var(vars_view(vars@), name@) == Some(v@),
            None => lookup_var(vars_view(vars@), name@) is None,
        },
{
    let target = chars_of(name);
    let mut i: usize = 0;
    assert(vars_view(vars@).skip(0) =~= vars_view(vars@));
    while i < vars.len()
        invariant
            i <= vars.len(),
            target@ == name@,
            lookup_var(vars_view(vars@), name@) == lookup_var(
                vars_view(vars@).skip(i as int),
                name@,
            ),
        decreases vars.len() - i,
    {
        let ghost rest = vars_view(vars@).skip(i as int);
        assert(rest.drop_first() =~= vars_view(vars@).skip(i + 1));
        assert(rest[0] == (vars@[i as int].0@, vars@[i as int].1@));
        let key = chars_of(vars[i].0.as_str());
        if crate::text::chars_eq(&key, &target) {
            return Some(vars[i].1.clone());
        }
        i = i + 1;
    }
    None
}

pub fn flag_var(vars: &Vec<(String, String)>, name: &str, default: bool) -> (r: bool)
    ensures
        r == spec_flag(lookup_var(vars_view(vars@), name@), default),
{
    match find_var(vars, name) {
        Some(v) => {
            let c = chars_of(v.as_str());
            let mut zero: Vec<char> = Vec::new();
            zero.push('0');
            proof {
                reveal_strlit("0");
            }
            assert(zero@ =~= "0"@);
            !crate::text::chars_eq(&c, &zero)
        },
        None => default,
    }
}

pub open spec fn spec_count_u64(value: Option<Seq<char>>, default: u64) -> u64 {
    match value {
        Some(v) => match spec_parse_unsigned(v) {
            Some(n) => if n <= u64::MAX {
                n as u64
            } else {
                default
            },
            None => default,
        },
        None => default,
    }
}

pub open spec fn spec_count_usize(value: Option<Seq<char>>, default: usize) -> usize {
    match value {
        Some(v) => match spec_parse_unsigned(v) {
            Some(n) => if n <= usize::MAX {
                n as usize
            } else {
                default
            },
            None => default,
        },
        None => default,
    }
}

pub fn u64_var(vars: &Vec<(String, String)>, name: &str, default: u64) -> (r: u64)
    ensures
        r == spec_count_u64(lookup_var(vars_view(vars@), name@), default),
{
    match find_var(vars, name) {
        Some(v) => match parse_u64(v.as_str()) {
            Some(n) => n,
            None => default,
        },
        None => default,
    }
}

pub fn usize_var(vars: &Vec<(String, String)>, name: &str, default: usize) -> (r: usize)
    ensures
        r == spec_count_usize(lookup_var(vars_view(vars@), name@), default),
{
    match find_var(vars, name) {
        Some(v) => match parse_usize(v.as_str()) {
            Some(n) => n,
            None => default,
        },
        None => default,
    }
}

/// The configuration the variables describe, over a storage layout whose
/// root was already resolved.
pub open spec fn config_from(
    c: SkillShelfRuntimeConfig,
    storage: SkillShelfStorageLayout,
    vars: Seq<(Seq<char>, Seq<char>)>,
) -> bool {
    &&& c.storage == storage
    &&& c.install_policy.accept_package_directories == spec_flag(
        lookup_var(vars, "SKILL_SHELF_ACCEPT_PACKAGES"@),
        true,
    )
    &&& c.install_policy.accept_raw_markdown == spec_flag(
        lookup_var(vars, "SKILL_SHELF_ACCEPT_RAW_MARKDOWN"@),
        true,
    )
    &&& c.install_policy.package_precedence@ == "package-first"@
    &&& c.install_policy.raw_markdown_requires_frontmatter == spec_flag(
        lookup_var(vars, "SKILL_SHELF_RAW_REQUIRES_FRONTMATTER"@),
        true,
    )
    &&& c.index_policy.default_search_result_limit == spec_count_usize(
        lookup_var(vars, "SKILL_SHELF_SEARCH_LIMIT"@),
        8,
    )
    &&& c.index_policy.max_keywords_per_skill == spec_count_usize(
        lookup_var(vars, "SKILL_SHELF_MAX_KEYWORDS"@),
        12,
    )
    &&& c.index_policy.max_related_skills == spec_count_usize(
        lookup_var(vars, "SKILL_SHELF_MAX_RELATED_SKILLS"@),
        5,
    )
    &&& c.watch_policy.enabled == spec_flag(lookup_var(vars, "SKILL_SHELF_WATCH"@), true)
    &&& c.watch_policy.use_polling == spec_flag(
        lookup_var(vars, "SKILL_SHELF_WATCH_USE_POLLING"@),
        true,
    )
    &&& c.watch_policy.polling_interval_ms == spec_count_u64(
        lookup_var(vars, "SKILL_SHELF_WATCH_INTERVAL_MS"@),
        100,
    )
    &&& c.watch_policy.await_write_stability_ms == spec_count_u64(
        lookup_var(vars, "SKILL_SHELF_WATCH_STABILITY_MS"@),
        300,
    )
    &&& c.watch_policy.await_write_poll_ms == spec_count_u64(
        lookup_var(vars, "SKILL_SHELF_WATCH_POLL_MS"@),
        50,
    )
    &&& c.watch_policy.sync_delete == spec_flag(
        lookup_var(vars, "SKILL_SHELF_WATCH_SYNC_DELETE"@),
        true,
    )
}

/// The runtime configuration from the environment's `SKILL_SHELF_*`
/// variables (name, value), the first of a name counting.
pub fn runtime_config(storage: SkillShelfStorageLayout, vars: &Vec<(String, String)>) -> (c:
    SkillShelfRuntimeConfig)
    ensures
        config_from(c, storage, vars_view(vars@)),
{
    SkillShelfRuntimeConfig {
        storage,
        install_policy: InstallPolicy {
            accept_package_directories: flag_var(vars, "SKILL_SHELF_ACCEPT_PACKAGES", true),
            accept_raw_markdown: flag_var(vars, "SKILL_SHELF_ACCEPT_RAW_MARKDOWN", true),
            package_precedence: String::from_str("package-first"),
            raw_markdown_requires_frontmatter: flag_var(
                vars,
                "SKILL_SHELF_RAW_REQUIRES_FRONTMATTER",
                true,
            ),
        },
        index_policy: IndexPolicy {
            default_search_result_limit: usize_var(vars, "SKILL_SHELF_SEARCH_LIMIT", 8),
            max_keywords_per_skill: usize_var(vars, "SKILL_SHELF_MAX_KEYWORDS", 12),
            max_related_skills: usize_var(vars, "SKILL_SHELF_MAX_RELATED_SKILLS", 5),
        },
        watch_policy: WatchPolicy {
            enabled: flag_var(vars, "SKILL_SHELF_WATCH", true),
            use_polling: flag_var(vars, "SKILL_SHELF_WATCH_USE_POLLING", true),
            polling_interval_ms: u64_var(vars, "SKILL_SHELF_WATCH_INTERVAL_MS", 100),
            await_write_stability_ms: u64_var(vars, "SKILL_SHELF_WATCH_STABILITY_MS", 300),
            await_write_poll_ms: u64_var(vars, "SKILL_SHELF_WATCH_POLL_MS", 50),
            sync_delete: flag_var(vars, "SKILL_SHELF_WATCH_SYNC_DELETE", true),
        },
    }
}

} // verus!
