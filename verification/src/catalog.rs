//! Managing the group catalog and moving skills between groups: what each
//! operation does to the catalog, what it answers and when it refuses.
//!
//! Creating, renaming and removing package directories, writing
//! `config/groups.json` and rebuilding the index happen around these steps.

use crate::model::{
    groups_view, strings_view, GroupCreateResult, GroupDeleteResult, GroupUpdateResult,
    ManagedGroupRecord, ManagedGroupView, RecordView, ReclassifyResult, SkillRecord,
};
use crate::registry::{
    copy_group, copy_record, group_entries, prefixed, sort_groups, sort_groups_by_name,
    spec_resolve, SkillRegistry,
};
use crate::search::{decimal_chars, spec_decimal, vviews};
use crate::text::{append_chars, chars_eq, chars_of, join_chars, join_with, string_of};
use vstd::prelude::*;

verus! {

/// The index of the first catalog entry of group `g`.
pub open spec fn first_group(groups: Seq<ManagedGroupView>, g: Seq<char>) -> Option<int>
    decreases groups.len(),
{
    if groups.len() == 0 {
        None
    } else if groups[0].group == g {
        Some(0)
    } else {
        match first_group(groups.drop_first(), g) {
            Some(i) => Some(i + 1),
            None => None,
        }
    }
}

/// The first entry of a name is at `i` when no entry before `i` has the
/// name and the entry at `i`, if any, has it.
pub proof fn lemma_first_group_at(groups: Seq<ManagedGroupView>, g: Seq<char>, i: int)
    requires
        0 <= i <= groups.len(),
        forall|k: int| 0 <= k < i ==> (#[trigger] groups[k]).group != g,
        i == groups.len() || groups[i].group == g,
    ensures
        first_group(groups, g) == if i < groups.len() {
            Some(i)
        } else {
            None::<int>
        },
    decreases i,
{
    if i > 0 {
        assert(groups[0].group != g);
        assert forall|k: int| 0 <= k < i - 1 implies (#[trigger] groups.drop_first()[k]).group != g by {
            assert(groups.drop_first()[k] == groups[k + 1]);
        }
        if i < groups.len() {
            assert(groups.drop_first()[i - 1] == groups[i]);
        }
        lemma_first_group_at(groups.drop_first(), g, i - 1);
    }
}

fn find_group(groups: &Vec<ManagedGroupRecord>, g: &Vec<char>) -> (r: Option<usize>)
    ensures
        match r {
            Some(i) => first_group(groups_view(groups@), g@) == Some(i as int) && i < groups@.len(),
            None => first_group(groups_view(groups@), g@) is None,
        },
{
    let ghost gv = groups_view(groups@);
    let mut i: usize = 0;
    while i < groups.len()
        invariant
            i <= groups@.len(),
            gv == groups_view(groups@),
            forall|k: int| 0 <= k < i ==> (#[trigger] gv[k]).group != g@,
        decreases groups.len() - i,
    {
        let c = chars_of(groups[i].group.as_str());
        if chars_eq(&c, g) {
            proof {
                lemma_first_group_at(gv, g@, i as int);
            }
            return Some(i);
        }
        i = i + 1;
    }
    proof {
        lemma_first_group_at(gv, g@, i as int);
    }
    None
}

/// A group created through the tools.
pub open spec fn custom_group(
    group: Seq<char>,
    description: Seq<char>,
    keywords: Seq<Seq<char>>,
    aliases: Seq<Seq<char>>,
) -> ManagedGroupView {
    ManagedGroupView {
        group: group,
        group_description: description,
        keywords: keywords,
        aliases: aliases,
        source: "custom"@,
    }
}

/// A catalog entry after an update: renamed, and with whichever of
/// description, keywords and aliases were given replaced.
pub open spec fn updated_group(
    e: ManagedGroupView,
    next: Seq<char>,
    description: Option<Seq<char>>,
    keywords: Option<Seq<Seq<char>>>,
    aliases: Option<Seq<Seq<char>>>,
) -> ManagedGroupView {
    ManagedGroupView {
        group: next,
        group_description: match description {
            Some(d) => d,
            None => e.group_description,
        },
        keywords: match keywords {
            Some(k) => k,
            None => e.keywords,
        },
        aliases: match aliases {
            Some(a) => a,
            None => e.aliases,
        },
        source: e.source,
    }
}

/// The catalog without any entry of group `g`.
pub open spec fn without_group(groups: Seq<ManagedGroupView>, g: Seq<char>) -> Seq<
    ManagedGroupView,
>
    decreases groups.len(),
{
    if groups.len() == 0 {
        Seq::empty()
    } else {
        let prev = without_group(groups.drop_last(), g);
        if groups.last().group != g {
            prev.push(groups.last())
        } else {
            prev
        }
    }
}

pub open spec fn opt_strings_view(o: Option<Vec<String>>) -> Option<Seq<Seq<char>>> {
    match o {
        Some(v) => Some(strings_view(v@)),
        None => None,
    }
}

pub open spec fn opt_view(o: Option<&str>) -> Option<Seq<char>> {
    match o {
        Some(s) => Some(s@),
        None => None,
    }
}

proof fn lemma_sort_groups_contains(s: Seq<ManagedGroupView>, x: ManagedGroupView)
    requires
        s.contains(x),
    ensures
        sort_groups(s).contains(x),
    decreases s.len(),
{
    let sorted = sort_groups(s.drop_last());
    let p = crate::registry::group_insert_pos(sorted, s.last());
    lemma_group_insert_pos_bounds(sorted, s.last());
    let r = sorted.insert(p, s.last());
    if s.last() == x {
        assert(r[p] == x);
    } else {
        let i = choose|i: int| 0 <= i < s.len() && s[i] == x;
        assert(i < s.len() - 1);
        assert(s.drop_last()[i] == x);
        lemma_sort_groups_contains(s.drop_last(), x);
        let j = choose|j: int| 0 <= j < sorted.len() && sorted[j] == x;
        if j < p {
            assert(r[j] == x);
        } else {
            assert(r[j + 1] == x);
        }
    }
}

proof fn lemma_sort_groups_from(s: Seq<ManagedGroupView>)
    ensures
        forall|j: int| 0 <= j < sort_groups(s).len() ==> s.contains(#[trigger] sort_groups(s)[j]),
        sort_groups(s).len() == s.len(),
    decreases s.len(),
{
    if s.len() > 0 {
        let d = s.drop_last();
        lemma_sort_groups_from(d);
        let sorted = sort_groups(d);
        let p = crate::registry::group_insert_pos(sorted, s.last());
        lemma_group_insert_pos_bounds(sorted, s.last());
        let r = sorted.insert(p, s.last());
        assert forall|j: int| 0 <= j < r.len() implies s.contains(#[trigger] r[j]) by {
            if j == p {
                assert(s[s.len() - 1] == r[j]);
            } else {
                let jj = if j < p { j } else { j - 1 };
                assert(r[j] == sorted[jj]);
                assert(d.contains(sorted[jj]));
                let k = choose|k: int| 0 <= k < d.len() && d[k] == sorted[jj];
                assert(s[k] == d[k]);
            }
        }
    }
}

proof fn lemma_first_group_props(groups: Seq<ManagedGroupView>, g: Seq<char>)
    ensures
        match first_group(groups, g) {
            Some(p) => 0 <= p < groups.len() && groups[p].group == g,
            None => forall|k: int| 0 <= k < groups.len() ==> (#[trigger] groups[k]).group != g,
        },
    decreases groups.len(),
{
    if groups.len() > 0 && groups[0].group != g {
        let t = groups.drop_first();
        lemma_first_group_props(t, g);
        assert forall|k: int| 0 <= k < t.len() implies t[k] == groups[k + 1] by {}
        if first_group(t, g) is None {
            assert forall|k: int| 0 <= k < groups.len() implies (#[trigger] groups[k]).group != g by {
                if k > 0 {
                    assert(t[k - 1] == groups[k]);
                }
            }
        }
    }
}

/// What an update writes: the catalog afterwards holds an entry of the new
/// name with the given description, keywords and aliases, each kept from
/// the old entry only where none was given; and when no other entry has the
/// new name, that is the entry `update_group` returns, the first of its name.
pub proof fn lemma_update_writes_fields(
    groups: Seq<ManagedGroupView>,
    i: int,
    next: Seq<char>,
    description: Option<Seq<char>>,
    keywords: Option<Seq<Seq<char>>>,
    aliases: Option<Seq<Seq<char>>>,
)
    requires
        0 <= i < groups.len(),
    ensures
        ({
            let sorted = sort_groups(
                groups.update(i, updated_group(groups[i], next, description, keywords, aliases)),
            );
            let wanted = |e: ManagedGroupView|
                e.group == next && e.group_description == (match description {
                    Some(d) => d,
                    None => groups[i].group_description,
                }) && e.keywords == (match keywords {
                    Some(k) => k,
                    None => groups[i].keywords,
                }) && e.aliases == (match aliases {
                    Some(a) => a,
                    None => groups[i].aliases,
                });
            &&& exists|j: int| 0 <= j < sorted.len() && wanted(#[trigger] sorted[j])
            &&& (forall|j: int| 0 <= j < groups.len() && j != i ==> (#[trigger] groups[j]).group != next)
                ==> (first_group(sorted, next) matches Some(p) && wanted(sorted[p]))
        }),
{
    let e = updated_group(groups[i], next, description, keywords, aliases);
    let u = groups.update(i, e);
    let sorted = sort_groups(u);
    assert(u[i] == e);
    assert(u.contains(e));
    lemma_sort_groups_contains(u, e);
    let j = choose|j: int| 0 <= j < sorted.len() && sorted[j] == e;
    assert(sorted[j] == e);
    if forall|j: int| 0 <= j < groups.len() && j != i ==> (#[trigger] groups[j]).group != next {
        lemma_first_group_props(sorted, next);
        lemma_sort_groups_from(u);
        match first_group(sorted, next) {
            Some(p) => {
                assert(u.contains(sorted[p]));
                let k = choose|k: int| 0 <= k < u.len() && u[k] == sorted[p];
                if k != i {
                    assert(u[k] == groups[k]);
                }
            },
            None => {
                assert(sorted[j].group == next);
            },
        }
    }
}

proof fn lemma_group_insert_pos_bounds(sorted: Seq<ManagedGroupView>, x: ManagedGroupView)
    ensures
        0 <= crate::registry::group_insert_pos(sorted, x) <= sorted.len(),
    decreases sorted.len(),
{
    if sorted.len() > 0 {
        lemma_group_insert_pos_bounds(sorted.drop_first(), x);
    }
}

impl SkillRegistry {
    /// Adds a custom group to the catalog, which stays sorted by group.
    pub fn create_group(
        &mut self,
        group: &str,
        group_description: &str,
        keywords: Vec<String>,
        aliases: Vec<String>,
    ) -> (r: GroupCreateResult)
        ensures
            final(self).groups() == sort_groups(
                old(self).groups().push(
                    custom_group(
                        group@,
                        group_description@,
                        strings_view(keywords@),
                        strings_view(aliases@),
                    ),
                ),
            ),
            r.action@ == "created"@,
            r.group@ == custom_group(
                group@,
                group_description@,
                strings_view(keywords@),
                strings_view(aliases@),
            ),
            final(self).skill_records == old(self).skill_records,
            final(self).issues == old(self).issues,
            final(self).layout == old(self).layout,
            final(self).install_policy == old(self).install_policy,
            final(self).index_policy == old(self).index_policy,
    {
        let new_group = ManagedGroupRecord {
            group: string_of(&chars_of(group)),
            group_description: string_of(&chars_of(group_description)),
            keywords,
            aliases,
            source: String::from_str("custom"),
        };
        let result_group = copy_group(&new_group);
        let ghost before = self.managed_groups@;
        self.managed_groups.push(new_group);
        assert(groups_view(self.managed_groups@) =~= groups_view(before).push(result_group@));
        self.managed_groups = sort_groups_by_name(&self.managed_groups);
        GroupCreateResult { action: String::from_str("created"), group: result_group }
    }

    /// Updates a group of the catalog: renames it and replaces whichever
    /// fields are given; `unknown group: <group>` when there is none.
    pub fn update_group(
        &mut self,
        group: &str,
        new_group: Option<&str>,
        group_description: Option<&str>,
        keywords: Option<Vec<String>>,
        aliases: Option<Vec<String>>,
    ) -> (r: Result<GroupUpdateResult, String>)
        ensures
            final(self).skill_records == old(self).skill_records,
            final(self).issues == old(self).issues,
            final(self).layout == old(self).layout,
            final(self).install_policy == old(self).install_policy,
            final(self).index_policy == old(self).index_policy,
            match first_group(old(self).groups(), group@) {
                None => r is Err && r->Err_0@ == "unknown group: "@ + group@ && final(self).groups()
                    == old(self).groups(),
                Some(i) => {
                    let next = match new_group {
                        Some(n) => n@,
                        None => group@,
                    };
                    let sorted = sort_groups(
                        old(self).groups().update(
                            i,
                            updated_group(
                                old(self).groups()[i],
                                next,
                                opt_view(group_description),
                                opt_strings_view(keywords),
                                opt_strings_view(aliases),
                            ),
                        ),
                    );
                    &&& r is Ok
                    &&& final(self).groups() == sorted
                    &&& r->Ok_0.action@ == "updated"@
                    &&& r->Ok_0.previous_group@ == group@
                    &&& first_group(sorted, next) is Some
                    &&& r->Ok_0.group@ == sorted[first_group(sorted, next)->0]
                },
            },
    {
        let gc = chars_of(group);
        let next: &str = match new_group {
            Some(n) => n,
            None => group,
        };
        let idx = find_group(&self.managed_groups, &gc);
        match idx {
            None => Err(prefixed("unknown group: ", group)),
            Some(i) => {
                let ghost old_v = self.groups();
                let old_entry = copy_group(&self.managed_groups[i]);
                let entry = ManagedGroupRecord {
                    group: string_of(&chars_of(next)),
                    group_description: match group_description {
                        Some(d) => string_of(&chars_of(d)),
                        None => old_entry.group_description,
                    },
                    keywords: match keywords {
                        Some(k) => k,
                        None => old_entry.keywords,
                    },
                    aliases: match aliases {
                        Some(a) => a,
                        None => old_entry.aliases,
                    },
                    source: old_entry.source,
                };
                let ghost x = entry@;
                assert(x == updated_group(
                    old_v[i as int],
                    next@,
                    opt_view(group_description),
                    opt_strings_view(keywords),
                    opt_strings_view(aliases),
                ));
                self.managed_groups.set(i, entry);
                assert(self.groups() =~= old_v.update(i as int, x));
                self.managed_groups = sort_groups_by_name(&self.managed_groups);
                let nc = chars_of(next);
                proof {
                    let u = old_v.update(i as int, x);
                    assert(u[i as int] == x);
                    assert(u.contains(x));
                    lemma_sort_groups_contains(u, x);
                }
                match find_group(&self.managed_groups, &nc) {
                    Some(j) => Ok(
                        GroupUpdateResult {
                            action: String::from_str("updated"),
                            previous_group: string_of(&gc),
                            group: copy_group(&self.managed_groups[j]),
                        },
                    ),
                    None => {
                        proof {
                            let sv = self.groups();
                            let k = choose|k: int| 0 <= k < sv.len() && sv[k] == x;
                            lemma_first_group_found(sv, next@);
                            assert(sv[k].group == next@);
                        }
                        Err(prefixed("updated group missing: ", next))
                    },
                }
            },
        }
    }

    /// Removes an empty group from the catalog: `unknown group: <group>`
    /// when there is none, `group is not empty: <group> (<n> skills)` when
    /// `n` records are filed under it.
    pub fn delete_group(&mut self, group: &str) -> (r: Result<GroupDeleteResult, String>)
        ensures
            final(self).skill_records == old(self).skill_records,
            final(self).issues == old(self).issues,
            final(self).layout == old(self).layout,
            final(self).install_policy == old(self).install_policy,
            final(self).index_policy == old(self).index_policy,
            ({
                let n = group_entries(old(self).records(), group@).len();
                match first_group(old(self).groups(), group@) {
                    None => r is Err && r->Err_0@ == "unknown group: "@ + group@
                        && final(self).groups() == old(self).groups(),
                    Some(_) => if n > 0 {
                        &&& r is Err
                        &&& r->Err_0@ == "group is not empty: "@ + group@ + " ("@ + spec_decimal(n)
                            + " skills)"@
                        &&& final(self).groups() == old(self).groups()
                    } else {
                        &&& r is Ok
                        &&& r->Ok_0.action@ == "deleted"@
                        &&& r->Ok_0.group@ == group@
                        &&& final(self).groups() == without_group(old(self).groups(), group@)
                    },
                }
            }),
    {
        let gc = chars_of(group);
        match find_group(&self.managed_groups, &gc) {
            None => Err(prefixed("unknown group: ", group)),
            Some(_) => {
                let entries = self.count_group_records(&gc);
                if entries > 0 {
                    let mut msg = chars_of("group is not empty: ");
                    append_chars(&mut msg, &gc);
                    append_chars(&mut msg, &chars_of(" ("));
                    append_chars(&mut msg, &decimal_chars(entries));
                    append_chars(&mut msg, &chars_of(" skills)"));
                    return Err(string_of(&msg));
                }
                let ghost gv = self.groups();
                let mut kept: Vec<ManagedGroupRecord> = Vec::new();
                let mut i: usize = 0;
                assert(gv.take(0) =~= Seq::<ManagedGroupView>::empty());
                while i < self.managed_groups.len()
                    invariant
                        i <= self.managed_groups@.len(),
                        gv == self.groups(),
                        gc@ == group@,
                        groups_view(kept@) == without_group(gv.take(i as int), group@),
                    decreases self.managed_groups.len() - i,
                {
                    assert(gv.take(i + 1).drop_last() =~= gv.take(i as int));
                    assert(gv.take(i + 1).last() == gv[i as int]);
                    let c = chars_of(self.managed_groups[i].group.as_str());
                    if !chars_eq(&c, &gc) {
                        let g = copy_group(&self.managed_groups[i]);
                        let ghost before = kept@;
                        kept.push(g);
                        assert(groups_view(kept@) =~= groups_view(before).push(g@));
                    }
                    i = i + 1;
                }
                assert(gv.take(i as int) =~= gv);
                self.managed_groups = kept;
                Ok(GroupDeleteResult { action: String::from_str("deleted"), group: string_of(&gc) })
            },
        }
    }

    /// How many records are filed under group `g`.
    pub fn count_group_records(&self, g: &Vec<char>) -> (n: usize)
        ensures
            n == group_entries(self.records(), g@).len(),
    {
        let ghost recs = self.records();
        let mut n: usize = 0;
        let mut i: usize = 0;
        assert(recs.take(0) =~= Seq::<RecordView>::empty());
        while i < self.skill_records.len()
            invariant
                i <= self.skill_records@.len(),
                recs == self.records(),
                n == group_entries(recs.take(i as int), g@).len(),
                n <= i,
            decreases self.skill_records.len() - i,
        {
            assert(recs.take(i + 1).drop_last() =~= recs.take(i as int));
            assert(recs.take(i + 1).last() == recs[i as int]);
            let c = chars_of(self.skill_records[i].group.as_str());
            if chars_eq(&c, g) {
                n = n + 1;
            }
            i = i + 1;
        }
        assert(recs.take(i as int) =~= recs);
        n
    }
}

proof fn lemma_first_group_found(groups: Seq<ManagedGroupView>, g: Seq<char>)
    ensures
        first_group(groups, g) is None ==> forall|k: int| 0 <= k < groups.len() ==> (#[trigger] groups[k]).group != g,
    decreases groups.len(),
{
    if groups.len() > 0 && groups[0].group != g {
        let d = groups.drop_first();
        lemma_first_group_found(d, g);
        if first_group(groups, g) is None {
            assert(first_group(d, g) is None);
            assert forall|k: int| 0 <= k < groups.len() implies (#[trigger] groups[k]).group != g by {
                if k > 0 {
                    assert(groups[k] == d[k - 1]);
                }
            }
        }
    }
}

// ---------------------------------------------------------------------------
// Moving a skill to another group
// ---------------------------------------------------------------------------

/// What a move asks for: nothing, the skill being in the target already,
/// or moving this record.
#[derive(Debug, Clone, PartialEq, Eq)]
pub enum ReclassifyPlan {
    Skip(ReclassifyResult),
    Move(SkillRecord),
}

/// The catalog's group names joined with `, `.
pub open spec fn group_names(groups: Seq<ManagedGroupView>) -> Seq<Seq<char>> {
    groups.map_values(|g: ManagedGroupView| g.group)
}

impl SkillRegistry {
    /// Decides a move: an unknown skill is refused; a skill already in the
    /// target is skipped; an unknown target is refused with the catalog's
    /// groups; otherwise the resolved record moves.
    pub fn plan_reclassify(&self, skill: &str, target_group: &str) -> (r: Result<ReclassifyPlan, String>)
        ensures
            match spec_resolve(self.records(), skill@) {
                None => r is Err && r->Err_0@ == "unknown skill: "@ + skill@,
                Some(rec) => if rec.group == target_group@ {
                    &&& r matches Ok(ReclassifyPlan::Skip(res))
                    &&& res.skill_id@ == rec.skill_id
                    &&& res.skill_name@ == rec.skill_name
                    &&& res.from_group@ == rec.group
                    &&& res.to_group@ == target_group@
                    &&& res.status@ == "skipped"@
                    &&& res.message@ == "skill is already in the target group"@
                } else if first_group(self.groups(), target_group@) is None {
                    &&& r is Err
                    &&& r->Err_0@ == "unknown target group: "@ + target_group@ + ". valid groups: "@
                        + join_with(group_names(self.groups()), ", "@)
                } else {
                    r matches Ok(ReclassifyPlan::Move(m)) && m@ == rec
                },
            },
    {
        let record = match self.resolve_single_skill(skill) {
            Ok(rec) => rec,
            Err(e) => return Err(e),
        };
        let from = chars_of(record.group.as_str());
        let target = chars_of(target_group);
        if chars_eq(&from, &target) {
            return Ok(
                ReclassifyPlan::Skip(
                    ReclassifyResult {
                        skill_id: string_of(&chars_of(record.skill_id.as_str())),
                        skill_name: string_of(&chars_of(record.skill_name.as_str())),
                        from_group: string_of(&from),
                        to_group: string_of(&target),
                        status: String::from_str("skipped"),
                        message: String::from_str("skill is already in the target group"),
                    },
                ),
            );
        }
        match find_group(&self.managed_groups, &target) {
            Some(_) => Ok(ReclassifyPlan::Move(record)),
            None => {
                let mut names: Vec<Vec<char>> = Vec::new();
                let mut i: usize = 0;
                while i < self.managed_groups.len()
                    invariant
                        i <= self.managed_groups@.len(),
                        names@.len() == i,
                        forall|k: int| 0 <= k < i ==> #[trigger] names@[k]@ == self.managed_groups@[k]@.group,
                    decreases self.managed_groups.len() - i,
                {
                    names.push(chars_of(self.managed_groups[i].group.as_str()));
                    i = i + 1;
                }
                assert(names@.map_values(|p: Vec<char>| p@) =~= group_names(self.groups()));
                let joined = join_chars(&names, &chars_of(", "));
                let mut msg = chars_of("unknown target group: ");
                append_chars(&mut msg, &target);
                append_chars(&mut msg, &chars_of(". valid groups: "));
                append_chars(&mut msg, &joined);
                Err(string_of(&msg))
            },
        }
    }
}

/// The answer after a skill was moved.
pub fn moved_result(record: &SkillRecord, target_group: &str) -> (r: ReclassifyResult)
    ensures
        r.skill_id@ == record.skill_id@,
        r.skill_name@ == record.skill_name@,
        r.from_group@ == record.group@,
        r.to_group@ == target_group@,
        r.status@ == "moved"@,
        r.message@ == "moved from "@ + record.group@ + " to "@ + target_group@,
{
    let mut msg = chars_of("moved from ");
    append_chars(&mut msg, &chars_of(record.group.as_str()));
    append_chars(&mut msg, &chars_of(" to "));
    append_chars(&mut msg, &chars_of(target_group));
    ReclassifyResult {
        skill_id: string_of(&chars_of(record.skill_id.as_str())),
        skill_name: string_of(&chars_of(record.skill_name.as_str())),
        from_group: string_of(&chars_of(record.group.as_str())),
        to_group: string_of(&chars_of(target_group)),
        status: String::from_str("moved"),
        message: string_of(&msg),
    }
}

// ---------------------------------------------------------------------------
// Laws of the catalog
// ---------------------------------------------------------------------------

/// A created group is in the catalog afterwards.
pub proof fn lemma_created_group_listed(groups: Seq<ManagedGroupView>, g: ManagedGroupView)
    ensures
        sort_groups(groups.push(g)).contains(g),
        first_group(sort_groups(groups.push(g)), g.group) is Some,
{
    assert(groups.push(g)[groups.len() as int] == g);
    lemma_sort_groups_contains(groups.push(g), g);
    let s = sort_groups(groups.push(g));
    let k = choose|k: int| 0 <= k < s.len() && s[k] == g;
    lemma_first_group_found(s, g.group);
}

/// A deleted group leaves no entry of its name, and every other entry stays.
pub proof fn lemma_deleted_group_gone(groups: Seq<ManagedGroupView>, g: Seq<char>)
    ensures
        forall|k: int| 0 <= k < without_group(groups, g).len() ==> (#[trigger] without_group(groups, g)[k]).group != g,
        forall|k: int|
            0 <= k < groups.len() && (#[trigger] groups[k]).group != g ==> without_group(groups, g).contains(
                groups[k],
            ),
    decreases groups.len(),
{
    if groups.len() > 0 {
        let d = groups.drop_last();
        lemma_deleted_group_gone(d, g);
        let prev = without_group(d, g);
        let out = without_group(groups, g);
        assert forall|k: int| 0 <= k < out.len() implies (#[trigger] out[k]).group != g by {
            if k < prev.len() {
                assert(out[k] == prev[k]);
            }
        }
        assert forall|k: int| 0 <= k < groups.len() && (#[trigger] groups[k]).group != g implies out.contains(groups[k]) by {
            if k < groups.len() - 1 {
                assert(groups[k] == d[k]);
                let j = choose|j: int| 0 <= j < prev.len() && prev[j] == d[k];
                assert(out[j] == prev[j]);
            } else {
                assert(out[out.len() - 1] == groups[k]);
            }
        }
    }
}

} // verus!
