//! The unlock schedule of a spiral skill tree: which skills are unlocked at
//! a level, and the order in which the skills unlock.
//!
//! A skill's power figures are floating-point values and stay with the
//! callers; the schedule reads only a skill's name and the level at which it
//! unlocks, and that is what `SkillUnlock` holds.

use vstd::prelude::*;

verus! {

/// What the unlock schedule reads of a skill: its name and its unlock level.
#[derive(Debug, Clone)]
pub struct SkillUnlock {
    pub name: String,
    pub unlocks_at: usize,
}

/// In the unlock order, skill `a` comes before skill `b`: it unlocks at a
/// lower level, or at the same level and stands earlier in the list.
pub open spec fn unlocks_before(skills: Seq<SkillUnlock>, a: int, b: int) -> bool {
    ||| skills[a].unlocks_at < skills[b].unlocks_at
    ||| (skills[a].unlocks_at == skills[b].unlocks_at && a < b)
}

/// `order` lists the positions of all the skills, each once, sorted by the
/// level at which they unlock; skills that unlock at the same level keep the
/// order they have in the list.
pub open spec fn is_unlock_order(skills: Seq<SkillUnlock>, order: Seq<usize>) -> bool {
    &&& order.len() == skills.len()
    &&& forall|k: int| 0 <= k < order.len() ==> #[trigger] order[k] < skills.len()
    &&& forall|k: int, l: int|
        0 <= k < l < order.len() ==> unlocks_before(skills, #[trigger] order[k] as int, #[trigger] order[l] as int)
}

/// An unlock order is sorted by unlock level, and skills that unlock at the
/// same level keep their list order.
pub proof fn law_unlock_order_sorted_and_stable(skills: Seq<SkillUnlock>, order: Seq<usize>)
    requires
        is_unlock_order(skills, order),
    ensures
        order.len() == skills.len(),
        forall|k: int, l: int|
            0 <= k < l < order.len() ==> skills[#[trigger] order[k] as int].unlocks_at
                <= skills[#[trigger] order[l] as int].unlocks_at,
        forall|k: int, l: int|
            0 <= k < l < order.len() && skills[#[trigger] order[k] as int].unlocks_at
                == skills[#[trigger] order[l] as int].unlocks_at ==> order[k] < order[l],
        forall|k: int, l: int|
            0 <= k < l < order.len() ==> #[trigger] order[k] != #[trigger] order[l],
{
    assert forall|k: int, l: int| 0 <= k < l < order.len() implies skills[#[trigger] order[k] as int].unlocks_at
        <= skills[#[trigger] order[l] as int].unlocks_at by {
        assert(unlocks_before(skills, order[k] as int, order[l] as int));
    }
    assert forall|k: int, l: int| 0 <= k < l < order.len() && skills[#[trigger] order[k] as int].unlocks_at
        == skills[#[trigger] order[l] as int].unlocks_at implies order[k] < order[l] by {
        assert(unlocks_before(skills, order[k] as int, order[l] as int));
    }
    assert forall|k: int, l: int| 0 <= k < l < order.len() implies #[trigger] order[k] != #[trigger] order[l] by {
        assert(unlocks_before(skills, order[k] as int, order[l] as int));
    }
}

impl SkillUnlock {
    /// Unlocked if level >= unlocks_at.
    pub fn is_unlocked(&self, level: usize) -> (r: bool)
        ensures
            r == (level >= self.unlocks_at),
    {
        level >= self.unlocks_at
    }
}

/// Fibonacci-ordered unlock sequence: the skills' names, sorted by unlock
/// level, in list order among skills that unlock at the same level.
pub fn unlock_order(skills: &Vec<SkillUnlock>) -> (r: Vec<String>)
    ensures
        exists|order: Seq<usize>|
            #[trigger] is_unlock_order(skills@, order) && r@.len() == order.len() && forall|k: int|
                0 <= k < order.len() ==> r@[k] == skills@[order[k] as int].name,
{
    let ghost s = skills@;
    let mut order: Vec<usize> = Vec::new();
    let mut i: usize = 0;
    while i < skills.len()
        invariant
            s == skills@,
            i <= s.len(),
            order@.len() == i,
            forall|k: int| 0 <= k < order@.len() ==> #[trigger] order@[k] < i,
            forall|k: int, l: int|
                0 <= k < l < order@.len() ==> unlocks_before(s, #[trigger] order@[k] as int, #[trigger] order@[l] as int),
        decreases s.len() - i,
    {
        let key = skills[i].unlocks_at;
        let mut pos: usize = 0;
        while pos < order.len() && skills[order[pos]].unlocks_at <= key
            invariant
                s == skills@,
                i < s.len(),
                key == s[i as int].unlocks_at,
                pos <= order@.len(),
                forall|k: int| 0 <= k < order@.len() ==> #[trigger] order@[k] < i,
                forall|k: int| 0 <= k < pos ==> s[#[trigger] order@[k] as int].unlocks_at <= key,
            decreases order@.len() - pos,
        {
            pos += 1;
        }
        let ghost before = order@;
        proof {
            assert forall|k: int| pos <= k < before.len() implies key < s[#[trigger] before[k] as int].unlocks_at by {
                if k > pos {
                    assert(unlocks_before(s, before[pos as int] as int, before[k] as int));
                }
            }
        }
        order.insert(pos, i);
        proof {
            let after = order@;
            assert(after =~= before.insert(pos as int, i));
            assert forall|k: int, l: int| 0 <= k < l < after.len() implies unlocks_before(
                s,
                #[trigger] after[k] as int,
                #[trigger] after[l] as int,
            ) by {
                if l < pos {
                    assert(after[k] == before[k] && after[l] == before[l]);
                } else if l == pos {
                    assert(after[k] == before[k]);
                } else if k < pos {
                    assert(after[k] == before[k] && after[l] == before[l - 1]);
                    assert(unlocks_before(s, before[k] as int, before[l - 1] as int));
                } else if k == pos {
                    assert(after[l] == before[l - 1]);
                } else {
                    assert(after[k] == before[k - 1] && after[l] == before[l - 1]);
                    assert(unlocks_before(s, before[k - 1] as int, before[l - 1] as int));
                }
            }
            assert forall|k: int| 0 <= k < after.len() implies #[trigger] after[k] < i + 1 by {
                if k < pos {
                    assert(after[k] == before[k]);
                } else if k > pos {
                    assert(after[k] == before[k - 1]);
                }
            }
        }
        i += 1;
    }
    let mut names: Vec<String> = Vec::new();
    let mut k: usize = 0;
    while k < order.len()
        invariant
            s == skills@,
            is_unlock_order(s, order@),
            k <= order@.len(),
            names@.len() == k,
            forall|j: int| 0 <= j < k ==> names@[j] == s[order@[j] as int].name,
        decreases order@.len() - k,
    {
        names.push(skills[order[k]].name.clone());
        k += 1;
    }
    assert(is_unlock_order(skills@, order@));
    names
}

/// The position of the first skill named `name`, if any: the skill whose
/// power `skill_at_level` reports.
pub fn find_skill(skills: &Vec<SkillUnlock>, name: &String) -> (r: Option<usize>)
    ensures
        match r {
            Some(i) => i < skills@.len() && skills@[i as int].name@ == name@ && forall|j: int|
                0 <= j < i ==> #[trigger] skills@[j].name@ != name@,
            None => forall|j: int| 0 <= j < skills@.len() ==> #[trigger] skills@[j].name@ != name@,
        },
{
    let mut i: usize = 0;
    while i < skills.len()
        invariant
            i <= skills@.len(),
            forall|j: int| 0 <= j < i ==> #[trigger] skills@[j].name@ != name@,
        decreases skills@.len() - i,
    {
        if skills[i].name == *name {
            return Some(i);
        }
        i += 1;
    }
    None
}

} // verus!
