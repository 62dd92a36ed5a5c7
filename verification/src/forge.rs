//! Repository metadata from the GitHub API: what the answers to three
//! queries say, once they have arrived.

use vstd::prelude::*;

verus! {

/// How strictly a ruleset is enforced.
pub enum RuleEnforcement {
    Active,
    Disabled,
    Evaluate,
    Other(String),
}

/// What a ruleset applies to.
pub enum RepositoryRulesetTarget {
    Branch,
    Push,
    Repository,
    Tag,
    Other(String),
}

/// A repository ruleset with its branch conditions.
pub struct RepositoryRuleset {
    pub id: String,
    pub name: String,
    pub enforcement: RuleEnforcement,
    pub target: Option<RepositoryRulesetTarget>,
    pub include_refs: Vec<String>,
    pub exclude_refs: Vec<String>,
}

/// A required status check from a ruleset.
pub struct RequiredStatusCheck {
    pub context: String,
    pub integration_id: Option<i64>,
}

/// The object that a branch points at.
pub struct BranchTarget {
    pub oid: String,
}

/// A branch as the API describes it.
pub struct BranchRef {
    pub name: String,
    pub target: Option<BranchTarget>,
}

/// The repository part of the answer to the query for the default branch.
pub struct BranchRepository {
    pub default_branch_ref: Option<BranchRef>,
}

/// The answer to the query for the default branch.
pub struct DefaultBranchResponse {
    pub repository: Option<BranchRepository>,
}

/// The reference names that a ruleset includes and excludes.
pub struct RefNameCondition {
    pub included: Vec<String>,
    pub excluded: Vec<String>,
}

/// The conditions of a ruleset.
pub struct RulesetConditions {
    pub ref_name: Option<RefNameCondition>,
}

/// A ruleset as the API describes it.
pub struct RulesetNode {
    pub id: String,
    pub name: String,
    pub enforcement: RuleEnforcement,
    pub target: Option<RepositoryRulesetTarget>,
    pub conditions: RulesetConditions,
}

/// The rulesets of a repository; the API may leave any of them out.
pub struct RulesetConnection {
    pub nodes: Option<Vec<Option<RulesetNode>>>,
}

/// The repository part of the answer to the query for the rulesets.
pub struct RulesetsRepository {
    pub rulesets: Option<RulesetConnection>,
}

/// The answer to the query for the rulesets of a repository.
pub struct RulesetsResponse {
    pub repository: Option<RulesetsRepository>,
}

/// A status check as the API describes it.
pub struct StatusCheck {
    pub context: String,
    pub integration_id: Option<i64>,
}

/// The parameters of a rule: the status checks it requires, or something else.
pub enum RuleParameters {
    RequiredStatusChecks(Vec<StatusCheck>),
    Other,
}

/// A rule of a ruleset.
pub struct RuleNode {
    pub parameters: Option<RuleParameters>,
}

/// The rules of a ruleset; the API may leave any of them out.
pub struct RuleConnection {
    pub nodes: Option<Vec<Option<RuleNode>>>,
}

/// What the queried id stands for: a ruleset with its rules, or something else.
pub enum ChecksNode {
    RepositoryRuleset(Option<RuleConnection>),
    Other,
}

/// The answer to the query for the required checks of a ruleset.
pub struct RequiredChecksResponse {
    pub node: Option<ChecksNode>,
}

/// The name of the default branch and the id of its head, where the answer has
/// a repository, the repository a default branch, and the branch a target.
pub open spec fn default_branch(response: DefaultBranchResponse) -> Option<(String, String)> {
    match response.repository {
        Some(BranchRepository { default_branch_ref: Some(BranchRef { name, target: Some(t) }) }) => Some(
            (name, t.oid),
        ),
        _ => None,
    }
}

/// The entries of a list that are there.
pub open spec fn present<T>(s: Seq<Option<T>>) -> Seq<T>
    decreases s.len(),
{
    if s.len() == 0 {
        Seq::empty()
    } else {
        match s.last() {
            Some(x) => present(s.drop_last()).push(x),
            None => present(s.drop_last()),
        }
    }
}

/// The ruleset nodes of an answer: none where the repository, its rulesets or
/// their nodes are missing.
pub open spec fn ruleset_nodes(response: RulesetsResponse) -> Seq<Option<RulesetNode>> {
    match response.repository {
        Some(RulesetsRepository { rulesets: Some(RulesetConnection { nodes: Some(v) }) }) => v@,
        _ => Seq::empty(),
    }
}

/// The ruleset `r` is what the node says: the same id, name, enforcement and
/// target, and the included and excluded names of its condition, none where
/// it has no such condition.
pub open spec fn ruleset_of(node: RulesetNode, r: RepositoryRuleset) -> bool {
    &&& r.id == node.id
    &&& r.name == node.name
    &&& r.enforcement == node.enforcement
    &&& r.target == node.target
    &&& match node.conditions.ref_name {
        Some(c) => r.include_refs == c.included && r.exclude_refs == c.excluded,
        None => r.include_refs@.len() == 0 && r.exclude_refs@.len() == 0,
    }
}

/// The rule nodes of an answer: none unless the id stands for a ruleset that
/// has rules with nodes.
pub open spec fn rule_nodes(response: RequiredChecksResponse) -> Seq<Option<RuleNode>> {
    match response.node {
        Some(ChecksNode::RepositoryRuleset(Some(RuleConnection { nodes: Some(v) }))) => v@,
        _ => Seq::empty(),
    }
}

/// The status checks that one rule requires.
pub open spec fn checks_of_rule(rule: Option<RuleNode>) -> Seq<StatusCheck> {
    match rule {
        Some(RuleNode { parameters: Some(RuleParameters::RequiredStatusChecks(v)) }) => v@,
        _ => Seq::empty(),
    }
}

/// The status checks that the rules require, rule by rule.
pub open spec fn checks_of(rules: Seq<Option<RuleNode>>) -> Seq<StatusCheck>
    decreases rules.len(),
{
    if rules.len() == 0 {
        Seq::empty()
    } else {
        checks_of(rules.drop_last()) + checks_of_rule(rules.last())
    }
}

/// The check `r` is what the API's check says.
pub open spec fn check_of(c: StatusCheck, r: RequiredStatusCheck) -> bool {
    r.context == c.context && r.integration_id == c.integration_id
}

/// The part of a connection to the GitHub API that reads its answers.
pub struct GithubApiConnection {}

impl GithubApiConnection {
    /// Returns (default_branch_name, default_branch_head_oid) if available.
    pub fn get_default_branch(&self, response: DefaultBranchResponse) -> (r: Option<(String, String)>)
        ensures
            r == default_branch(response),
    {
        let repo = match response.repository {
            Some(r) => r,
            None => {
                return None;
            },
        };
        let default_ref = match repo.default_branch_ref {
            Some(r) => r,
            None => {
                return None;
            },
        };
        let target = match default_ref.target {
            Some(t) => t,
            None => {
                return None;
            },
        };
        Some((default_ref.name, target.oid))
    }

    /// Returns all rulesets of the answer with their branch conditions, in the
    /// order of the answer.
    pub fn get_repository_rulesets(&self, response: RulesetsResponse) -> (r: Vec<RepositoryRuleset>)
        ensures
            r@.len() == present(ruleset_nodes(response)).len(),
            forall|k: int|
                0 <= k < r@.len() ==> ruleset_of(present(ruleset_nodes(response))[k], #[trigger] r@[k]),
    {
        let ghost all = ruleset_nodes(response);
        let mut rest: Vec<Option<RulesetNode>> = match response.repository {
            Some(RulesetsRepository { rulesets: Some(RulesetConnection { nodes: Some(v) }) }) => v,
            _ => Vec::new(),
        };
        let mut out: Vec<RepositoryRuleset> = Vec::new();
        let ghost mut done: int = 0;
        assert(all.skip(0) =~= all);
        while rest.len() > 0
            invariant
                0 <= done <= all.len(),
                rest@ == all.skip(done),
                out@.len() == present(all.take(done)).len(),
                forall|k: int|
                    0 <= k < out@.len() ==> ruleset_of(present(all.take(done))[k], #[trigger] out@[k]),
            decreases rest.len(),
        {
            let item = rest.remove(0);
            proof {
                assert(all.take(done + 1).drop_last() =~= all.take(done));
            }
            match item {
                Some(node) => {
                    let (include_refs, exclude_refs) = match node.conditions.ref_name {
                        Some(ref_name) => (ref_name.included, ref_name.excluded),
                        None => (Vec::new(), Vec::new()),
                    };
                    out.push(
                        RepositoryRuleset {
                            id: node.id,
                            name: node.name,
                            enforcement: node.enforcement,
                            target: node.target,
                            include_refs,
                            exclude_refs,
                        },
                    );
                },
                None => {},
            }
            proof {
                done = done + 1;
            }
        }
        out
    }

    /// Returns the required status checks of the ruleset that the answer is
    /// about, rule by rule in the order of the answer.
    pub fn get_ruleset_required_checks(&self, response: RequiredChecksResponse) -> (r: Vec<
        RequiredStatusCheck,
    >)
        ensures
            r@.len() == checks_of(rule_nodes(response)).len(),
            forall|k: int|
                0 <= k < r@.len() ==> check_of(checks_of(rule_nodes(response))[k], #[trigger] r@[k]),
    {
        let ghost all = rule_nodes(response);
        let mut rest: Vec<Option<RuleNode>> = match response.node {
            Some(ChecksNode::RepositoryRuleset(Some(RuleConnection { nodes: Some(v) }))) => v,
            _ => Vec::new(),
        };
        let mut out: Vec<RequiredStatusCheck> = Vec::new();
        let ghost mut done: int = 0;
        assert(all.skip(0) =~= all);
        while rest.len() > 0
            invariant
                0 <= done <= all.len(),
                rest@ == all.skip(done),
                out@.len() == checks_of(all.take(done)).len(),
                forall|k: int|
                    0 <= k < out@.len() ==> check_of(checks_of(all.take(done))[k], #[trigger] out@[k]),
            decreases rest.len(),
        {
            let item = rest.remove(0);
            proof {
                assert(all.take(done + 1).drop_last() =~= all.take(done));
            }
            let ghost before = checks_of(all.take(done));
            let ghost these = checks_of_rule(item);
            let mut checks: Vec<StatusCheck> = match item {
                Some(RuleNode { parameters: Some(RuleParameters::RequiredStatusChecks(v)) }) => v,
                _ => Vec::new(),
            };
            let ghost mut taken: int = 0;
            while checks.len() > 0
                invariant
                    0 <= taken <= these.len(),
                    checks@ == these.skip(taken),
                    out@.len() == before.len() + taken,
                    forall|k: int|
                        0 <= k < out@.len() ==> check_of((before + these)[k], #[trigger] out@[k]),
                decreases checks.len(),
            {
                let check = checks.remove(0);
                out.push(
                    RequiredStatusCheck { context: check.context, integration_id: check.integration_id },
                );
                proof {
                    taken = taken + 1;
                }
            }
            proof {
                done = done + 1;
            }
        }
        out
    }
}

} // verus!
