//! The reaction table: the bond-cleaving rules of a RECAP decomposition, in
//! the order in which they are tried.

use vstd::prelude::*;

verus! {

/// The number of rules in the reaction table.
pub const RULE_COUNT: usize = 12;

/// The rules, as reaction patterns: the bond to cleave on the left of `>>`,
/// the pieces on the right, each with a placeholder where the bond was.
pub const REACTION_DEFS: [&'static str; 12] = [
    "[#7;+0;D2,D3:1]!@C(!@=O)!@[#7;+0;D2,D3:2]>>*[#7:1].[#7:2]*",
    "[C;!$(C([#7])[#7]):1](=!@[O:2])!@[#7;+0;!D1:3]>>*[C:1]=[O:2].*[#7:3]",
    "[C:1](=!@[O:2])!@[O;+0:3]>>*[C:1]=[O:2].[O:3]*",
    "[N;!D1;+0;!$(N-C=[#7,#8,#15,#16])](-!@[*:1])-!@[*:2]>>*[*:1].[*:2]*",
    "[#7;R;D3;+0:1]-!@[*:2]>>*[#7:1].[*:2]*",
    "[#6:1]-!@[O;+0]-!@[#6:2]>>[#6:1]*.*[#6:2]",
    "[C:1]=!@[C:2]>>[C:1]*.*[C:2]",
    "[n;+0:1]-!@[C:2]>>[n:1]*.[C:2]*",
    "[O:3]=[C:4]-@[N;+0:1]-!@[C:2]>>[O:3]=[C:4]-[N:1]*.[C:2]*",
    "[c:1]-!@[c:2]>>[c:1]*.*[c:2]",
    "[n;+0:1]-!@[c:2]>>[n:1]*.*[c:2]",
    "[#7;+0;D2,D3:1]-!@[S:2](=[O:3])=[O:4]>>[#7:1]*.*[S:2](=[O:3])=[O:4]",
];

/// Whether a rule may fire: every rule may, unless a selection was given,
/// and then those it names.
pub open spec fn rule_allowed(allowed: Option<Set<usize>>, rule: usize) -> bool {
    match allowed {
        None => true,
        Some(rules) => rules.contains(rule),
    }
}

/// The first rule at or after `from` that may fire, or `RULE_COUNT` where
/// there is none.
pub open spec fn next_rule(allowed: Option<Set<usize>>, from: usize) -> usize
    decreases RULE_COUNT - from,
{
    if from >= RULE_COUNT {
        RULE_COUNT
    } else if rule_allowed(allowed, from) {
        from
    } else {
        next_rule(allowed, (from + 1) as usize)
    }
}

/// The pattern of a rule of the table.
pub fn reaction_pattern(rule: usize) -> (pattern: &'static str)
    requires
        rule < RULE_COUNT,
    ensures
        pattern == REACTION_DEFS[rule as int],
{
    REACTION_DEFS[rule]
}

} // verus!
