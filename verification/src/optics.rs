//! The abstract syntax of ranking-rule ("optic") files, as the parser
//! hands it over: rules, host preferences, match blocks and actions.

use vstd::prelude::*;

verus! {

/// A whole parsed optic: its rules, host preferences, and whether
/// non-matching results are discarded.
#[derive(Debug, PartialEq)]
pub struct RawOptic {
    pub rules: Vec<RawRule>,
    pub host_preferences: Vec<RawHostPreference>,
    pub discard_non_matching: bool,
}

/// One top-level block of an optic file.
#[derive(Debug)]
pub enum RawOpticBlock {
    Rule(RawRule),
    HostPreference(RawHostPreference),
    DiscardNonMatching,
}

/// A rule: the match blocks it fires on, and what it then does.
#[derive(Debug, PartialEq)]
pub struct RawRule {
    pub matches: Vec<RawMatchBlock>,
    pub action: Option<RawAction>,
}

/// Liking or disliking a host.
#[derive(Debug, PartialEq)]
pub enum RawHostPreference {
    Like(String),
    Dislike(String),
}

/// A conjunction of match parts.
#[derive(Debug, PartialEq, Clone)]
pub struct RawMatchBlock(pub Vec<RawMatchPart>);

/// One field pattern inside a match block.
#[derive(Debug, PartialEq, Clone)]
pub enum RawMatchPart {
    Site(String),
    Url(String),
    Domain(String),
    Title(String),
    Description(String),
    Content(String),
    MicroformatTag(String),
    Schema(String),
}

/// What a matching rule does to a result.
#[derive(Debug, PartialEq, Clone)]
pub enum RawAction {
    Boost(u64),
    Downrank(u64),
    Discard,
}

/// The rules among `blocks`, in order.
pub open spec fn rules_of(blocks: Seq<RawOpticBlock>) -> Seq<RawRule>
    decreases blocks.len(),
{
    if blocks.len() == 0 {
        Seq::empty()
    } else {
        rules_of(blocks.drop_last()) + (match blocks.last() {
            RawOpticBlock::Rule(rule) => seq![rule],
            _ => Seq::empty(),
        })
    }
}

/// The host preferences among `blocks`, in order.
pub open spec fn prefs_of(blocks: Seq<RawOpticBlock>) -> Seq<RawHostPreference>
    decreases blocks.len(),
{
    if blocks.len() == 0 {
        Seq::empty()
    } else {
        prefs_of(blocks.drop_last()) + (match blocks.last() {
            RawOpticBlock::HostPreference(pref) => seq![pref],
            _ => Seq::empty(),
        })
    }
}

/// Whether any block turns discarding on.
pub open spec fn discard_of(blocks: Seq<RawOpticBlock>) -> bool {
    exists|j: int| 0 <= j < blocks.len() && blocks[j] is DiscardNonMatching
}

impl RawOptic {
    /// Sorts the parsed blocks into one optic: rules and host preferences
    /// keep their order, and one discard block anywhere turns discarding on.
    pub fn from_blocks(blocks: Vec<RawOpticBlock>) -> (r: RawOptic)
        ensures
            r.rules@ == rules_of(blocks@),
            r.host_preferences@ == prefs_of(blocks@),
            r.discard_non_matching == discard_of(blocks@),
    {
        let ghost all = blocks@;
        let n = blocks.len();
        let mut blocks = blocks;
        let mut rules: Vec<RawRule> = Vec::new();
        let mut host_preferences: Vec<RawHostPreference> = Vec::new();
        let mut discard_non_matching = false;
        let mut i: usize = 0;
        while blocks.len() > 0
            invariant
                n == all.len(),
                i <= all.len(),
                blocks@ == all.skip(i as int),
                rules@ == rules_of(all.take(i as int)),
                host_preferences@ == prefs_of(all.take(i as int)),
                discard_non_matching == discard_of(all.take(i as int)),
            decreases all.len() - i,
        {
            let block = blocks.remove(0);
            proof {
                assert(blocks@ =~= all.skip(i + 1));
                assert(all.take(i + 1).drop_last() =~= all.take(i as int));
                assert(all.take(i + 1).last() == all[i as int]);
                assert(block == all[i as int]);
            }
            match block {
                RawOpticBlock::Rule(rule) => rules.push(rule),
                RawOpticBlock::HostPreference(pref) => host_preferences.push(pref),
                RawOpticBlock::DiscardNonMatching => {
                    discard_non_matching = true;
                },
            }
            i = i + 1;
            proof {
                assert(rules@ =~= rules_of(all.take(i as int)));
                assert(host_preferences@ =~= prefs_of(all.take(i as int)));
                if discard_non_matching && !discard_of(all.take(i as int)) {
                    assert(false);
                }
                if !discard_non_matching && discard_of(all.take(i as int)) {
                    let j = choose|j: int|
                        0 <= j < i && all.take(i as int)[j] is DiscardNonMatching;
                    assert(j < i - 1 ==> all.take((i - 1) as int)[j] is DiscardNonMatching);
                    assert(false);
                }
            }
        }
        proof {
            assert(all.take(all.len() as int) =~= all);
            assert(i == all.len());
        }
        RawOptic { rules, host_preferences, discard_non_matching }
    }
}

} // verus!
