//! Groups that collision objects belong to, and the groups they may meet.

use vstd::prelude::*;

verus! {

/// The number of groups.
pub const MAX_GROUPS: usize = 30;

/// The mask with every group set.
pub const ALL_GROUPS: u32 = 0x3fff_ffff;

/// The mask with no group set.
pub const NO_GROUP: u32 = 0;

/// The bit that lets an object meet itself.
pub const SELF_COLLISION: u32 = 0x8000_0000;

/// `mask` with the bit of `group` set or cleared.
pub open spec fn mask_with(mask: u32, group: usize, set: bool) -> u32 {
    if set {
        mask | (1u32 << (group as u32))
    } else {
        mask & !(1u32 << (group as u32))
    }
}

/// Whether the bit of `group` is set in `mask`.
pub open spec fn mask_has(mask: u32, group: usize) -> bool {
    mask & (1u32 << (group as u32)) != 0
}

/// Three masks: the groups an object is a member of, the groups it may meet,
/// and the groups it may never meet.
#[derive(Clone, Copy, Debug, PartialEq, Eq, Structural)]
pub struct CollisionGroups {
    pub membership: u32,
    pub whitelist: u32,
    pub blacklist: u32,
}

impl CollisionGroups {
    /// Member of every group, free to meet every group, itself excepted.
    pub fn new() -> (g: CollisionGroups)
        ensures
            g == (CollisionGroups {
                membership: ALL_GROUPS,
                whitelist: ALL_GROUPS,
                blacklist: NO_GROUP,
            }),
    {
        CollisionGroups { membership: ALL_GROUPS, whitelist: ALL_GROUPS, blacklist: NO_GROUP }
    }

    /// Whether members of `self` and members of `other` may meet: neither
    /// side blacklists a group of the other, and each whitelists one.
    pub open spec fn compatible(self, other: CollisionGroups) -> bool {
        &&& self.membership & other.blacklist == 0
        &&& other.membership & self.blacklist == 0
        &&& self.membership & other.whitelist != 0
        &&& other.membership & self.whitelist != 0
    }

    /// Whether an object with these groups may meet itself.
    pub open spec fn self_compatible(self) -> bool {
        self.whitelist & SELF_COLLISION != 0
    }

    /// Adds the object to, or takes it out of, a group.
    pub fn modify_membership(&mut self, group: usize, add: bool)
        requires
            group < MAX_GROUPS,
        ensures
            *final(self) == (CollisionGroups {
                membership: mask_with(old(self).membership, group, add),
                ..*old(self)
            }),
    {
        self.membership = modify_mask(self.membership, group, add);
    }

    /// Adds a group to, or takes it out of, those the object may meet.
    pub fn modify_whitelist(&mut self, group: usize, add: bool)
        requires
            group < MAX_GROUPS,
        ensures
            *final(self) == (CollisionGroups {
                whitelist: mask_with(old(self).whitelist, group, add),
                ..*old(self)
            }),
    {
        self.whitelist = modify_mask(self.whitelist, group, add);
    }

    /// Adds a group to, or takes it out of, those the object may never meet.
    pub fn modify_blacklist(&mut self, group: usize, add: bool)
        requires
            group < MAX_GROUPS,
        ensures
            *final(self) == (CollisionGroups {
                blacklist: mask_with(old(self).blacklist, group, add),
                ..*old(self)
            }),
    {
        self.blacklist = modify_mask(self.blacklist, group, add);
    }

    /// Lets the object meet itself.
    pub fn enable_self_interaction(&mut self)
        ensures
            *final(self) == (CollisionGroups {
                whitelist: old(self).whitelist | SELF_COLLISION,
                ..*old(self)
            }),
    {
        self.whitelist = self.whitelist | SELF_COLLISION;
    }

    /// Keeps the object from meeting itself.
    pub fn disable_self_interaction(&mut self)
        ensures
            *final(self) == (CollisionGroups {
                whitelist: old(self).whitelist & !SELF_COLLISION,
                ..*old(self)
            }),
    {
        self.whitelist = self.whitelist & !SELF_COLLISION;
    }

    /// Whether the object is a member of `group`.
    pub fn is_member_of(&self, group: usize) -> (r: bool)
        requires
            group < MAX_GROUPS,
        ensures
            r == mask_has(self.membership, group),
    {
        self.membership & (1u32 << (group as u32)) != 0
    }

    /// Whether the object may meet members of `group`.
    pub fn is_group_whitelisted(&self, group: usize) -> (r: bool)
        requires
            group < MAX_GROUPS,
        ensures
            r == mask_has(self.whitelist, group),
    {
        self.whitelist & (1u32 << (group as u32)) != 0
    }

    /// Whether the object may never meet members of `group`.
    pub fn is_group_blacklisted(&self, group: usize) -> (r: bool)
        requires
            group < MAX_GROUPS,
        ensures
            r == mask_has(self.blacklist, group),
    {
        self.blacklist & (1u32 << (group as u32)) != 0
    }

    /// Whether the object may meet members of `group`: the group is
    /// whitelisted and not blacklisted.
    pub fn can_interact_with(&self, group: usize) -> (r: bool)
        requires
            group < MAX_GROUPS,
        ensures
            r == (mask_has(self.whitelist, group) && !mask_has(self.blacklist, group)),
    {
        !self.is_group_blacklisted(group) && self.is_group_whitelisted(group)
    }

    /// Whether members of `self` and members of `other` may meet.
    pub fn can_interact_with_groups(&self, other: &CollisionGroups) -> (r: bool)
        ensures
            r == self.compatible(*other),
    {
        self.membership & other.blacklist == 0 && other.membership & self.blacklist == 0
            && self.membership & other.whitelist != 0 && other.membership & self.whitelist != 0
    }

    /// Whether an object with these groups may meet itself.
    pub fn can_interact_with_self(&self) -> (r: bool)
        ensures
            r == self.self_compatible(),
    {
        self.whitelist & SELF_COLLISION != 0
    }
}

/// Sets or clears the bit of `group` in `mask`.
fn modify_mask(mask: u32, group: usize, set: bool) -> (r: u32)
    requires
        group < MAX_GROUPS,
    ensures
        r == mask_with(mask, group, set),
{
    if set {
        mask | (1u32 << (group as u32))
    } else {
        mask & !(1u32 << (group as u32))
    }
}

} // verus!
