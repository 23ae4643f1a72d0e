//! Where the index files go and how a staged index replaces the live one:
//! the names of the per-group and per-skill files, and the order of the
//! swaps with their backups.
//!
//! The files themselves are written, renamed and removed around this
//! module.

use crate::config::{join_path, path_join};
use crate::text::{append_chars, chars_of, string_of};
use vstd::prelude::*;

verus! {

/// The index file of a group: `<group>.json`.
pub fn group_index_file_name(group: &str) -> (r: String)
    ensures
        r@ == group@ + ".json"@,
{
    let mut c = chars_of(group);
    append_chars(&mut c, &chars_of(".json"));
    string_of(&c)
}

/// The index file of a skill: `<group>--<skill_id>.json`.
pub fn skill_index_file_name(group: &str, skill_id: &str) -> (r: String)
    ensures
        r@ == group@ + "--"@ + skill_id@ + ".json"@,
{
    let mut c = chars_of(group);
    append_chars(&mut c, &chars_of("--"));
    append_chars(&mut c, &chars_of(skill_id));
    append_chars(&mut c, &chars_of(".json"));
    string_of(&c)
}

/// One swap of a staged index part for the live one, with a backup.
#[derive(Debug, Clone, PartialEq, Eq)]
pub struct ReplaceOp {
    pub live_path: String,
    pub staged_path: String,
    pub backup_path: String,
}

/// The staging directory of an index write: `<index>/.staging-<suffix>`,
/// the suffix being unique to the write.
pub fn staging_root(index_root: &str, suffix: &str) -> (r: String)
    ensures
        r@ == path_join(index_root@, ".staging-"@ + suffix@),
{
    let mut name = chars_of(".staging-");
    append_chars(&mut name, &chars_of(suffix));
    join_path(index_root, string_of(&name).as_str())
}

fn backup_name(part: &str, txn: &str) -> (r: String)
    ensures
        r@ == ".backup-"@ + part@ + "-"@ + txn@,
{
    let mut c = chars_of(".backup-");
    append_chars(&mut c, &chars_of(part));
    append_chars(&mut c, &chars_of("-"));
    append_chars(&mut c, &chars_of(txn));
    string_of(&c)
}

/// The swaps that put a staged index live, in order: the group list, the
/// group files, the skill files; each backed up under
/// `.backup-<part>-<txn>` in the index directory, `txn` being unique to
/// the write.
pub fn replace_plan(
    index_root: &str,
    stage_root: &str,
    group_list_path: &str,
    groups_root: &str,
    skills_root: &str,
    txn: &str,
) -> (r: Vec<ReplaceOp>)
    ensures
        r@.len() == 3,
        r@[0].live_path@ == group_list_path@,
        r@[0].staged_path@ == path_join(stage_root@, "group-list.json"@),
        r@[0].backup_path@ == path_join(index_root@, ".backup-group-list-"@ + txn@),
        r@[1].live_path@ == groups_root@,
        r@[1].staged_path@ == path_join(stage_root@, "groups"@),
        r@[1].backup_path@ == path_join(index_root@, ".backup-groups-"@ + txn@),
        r@[2].live_path@ == skills_root@,
        r@[2].staged_path@ == path_join(stage_root@, "skills"@),
        r@[2].backup_path@ == path_join(index_root@, ".backup-skills-"@ + txn@),
{
    let mut ops: Vec<ReplaceOp> = Vec::new();
    let b0 = backup_name("group-list", txn);
    let b1 = backup_name("groups", txn);
    let b2 = backup_name("skills", txn);
    assert(b0@ =~= ".backup-group-list-"@ + txn@) by {
        reveal_strlit(".backup-");
        reveal_strlit("group-list");
        reveal_strlit("-");
        reveal_strlit(".backup-group-list-");
    }
    assert(b1@ =~= ".backup-groups-"@ + txn@) by {
        reveal_strlit(".backup-");
        reveal_strlit("groups");
        reveal_strlit("-");
        reveal_strlit(".backup-groups-");
    }
    assert(b2@ =~= ".backup-skills-"@ + txn@) by {
        reveal_strlit(".backup-");
        reveal_strlit("skills");
        reveal_strlit("-");
        reveal_strlit(".backup-skills-");
    }
    ops.push(
        ReplaceOp {
            live_path: string_of(&chars_of(group_list_path)),
            staged_path: join_path(stage_root, "group-list.json"),
            backup_path: join_path(index_root, b0.as_str()),
        },
    );
    ops.push(
        ReplaceOp {
            live_path: string_of(&chars_of(groups_root)),
            staged_path: join_path(stage_root, "groups"),
            backup_path: join_path(index_root, b1.as_str()),
        },
    );
    ops.push(
        ReplaceOp {
            live_path: string_of(&chars_of(skills_root)),
            staged_path: join_path(stage_root, "skills"),
            backup_path: join_path(index_root, b2.as_str()),
        },
    );
    ops
}

} // verus!
