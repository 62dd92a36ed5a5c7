use josh::forge::{
    BranchRef, BranchRepository, BranchTarget, ChecksNode, DefaultBranchResponse, GithubApiConnection,
    RefNameCondition, RepositoryRulesetTarget, RequiredChecksResponse, RuleConnection, RuleEnforcement, RuleNode,
    RuleParameters, RulesetConditions, RulesetConnection, RulesetNode, RulesetsRepository, RulesetsResponse,
    StatusCheck,
};

fn branch(name: &str, oid: Option<&str>) -> DefaultBranchResponse {
    DefaultBranchResponse {
        repository: Some(BranchRepository {
            default_branch_ref: Some(BranchRef {
                name: name.to_string(),
                target: oid.map(|o| BranchTarget { oid: o.to_string() }),
            }),
        }),
    }
}

fn ruleset(id: &str, condition: Option<(&[&str], &[&str])>) -> RulesetNode {
    RulesetNode {
        id: id.to_string(),
        name: format!("name of {}", id),
        enforcement: RuleEnforcement::Active,
        target: Some(RepositoryRulesetTarget::Branch),
        conditions: RulesetConditions {
            ref_name: condition.map(|(inc, exc)| RefNameCondition {
                included: inc.iter().map(|s| s.to_string()).collect(),
                excluded: exc.iter().map(|s| s.to_string()).collect(),
            }),
        },
    }
}

fn check(context: &str, id: Option<i64>) -> StatusCheck {
    StatusCheck { context: context.to_string(), integration_id: id }
}

#[test]
fn default_branch_needs_repository_branch_and_target() {
    let c = GithubApiConnection {};
    assert_eq!(
        c.get_default_branch(branch("main", Some("abc123"))),
        Some(("main".to_string(), "abc123".to_string()))
    );
    assert_eq!(c.get_default_branch(branch("main", None)), None);
    assert_eq!(c.get_default_branch(DefaultBranchResponse { repository: None }), None);
    assert_eq!(
        c.get_default_branch(DefaultBranchResponse {
            repository: Some(BranchRepository { default_branch_ref: None })
        }),
        None
    );
}

#[test]
fn rulesets_come_in_order_without_the_missing_ones() {
    let c = GithubApiConnection {};
    let response = RulesetsResponse {
        repository: Some(RulesetsRepository {
            rulesets: Some(RulesetConnection {
                nodes: Some(vec![
                    Some(ruleset("r1", Some((&["refs/heads/main", "~DEFAULT_BRANCH"], &["refs/heads/tmp/*"])))),
                    None,
                    Some(ruleset("r2", None)),
                    None,
                ]),
            }),
        }),
    };
    let sets = c.get_repository_rulesets(response);
    assert_eq!(sets.len(), 2);
    assert_eq!(sets[0].id, "r1");
    assert_eq!(sets[0].name, "name of r1");
    assert!(matches!(sets[0].enforcement, RuleEnforcement::Active));
    assert!(matches!(sets[0].target, Some(RepositoryRulesetTarget::Branch)));
    assert_eq!(sets[0].include_refs, vec!["refs/heads/main".to_string(), "~DEFAULT_BRANCH".to_string()]);
    assert_eq!(sets[0].exclude_refs, vec!["refs/heads/tmp/*".to_string()]);
    assert_eq!(sets[1].id, "r2");
    assert!(sets[1].include_refs.is_empty());
    assert!(sets[1].exclude_refs.is_empty());
}

#[test]
fn rulesets_are_none_where_the_answer_has_none() {
    let c = GithubApiConnection {};
    assert_eq!(c.get_repository_rulesets(RulesetsResponse { repository: None }).len(), 0);
    assert_eq!(
        c.get_repository_rulesets(RulesetsResponse { repository: Some(RulesetsRepository { rulesets: None }) }).len(),
        0
    );
    assert_eq!(
        c.get_repository_rulesets(RulesetsResponse {
            repository: Some(RulesetsRepository { rulesets: Some(RulesetConnection { nodes: None }) })
        })
        .len(),
        0
    );
    assert_eq!(
        c.get_repository_rulesets(RulesetsResponse {
            repository: Some(RulesetsRepository { rulesets: Some(RulesetConnection { nodes: Some(vec![None]) }) })
        })
        .len(),
        0
    );
}

#[test]
fn required_checks_come_rule_by_rule() {
    let c = GithubApiConnection {};
    let response = RequiredChecksResponse {
        node: Some(ChecksNode::RepositoryRuleset(Some(RuleConnection {
            nodes: Some(vec![
                Some(RuleNode { parameters: Some(RuleParameters::Other) }),
                Some(RuleNode {
                    parameters: Some(RuleParameters::RequiredStatusChecks(vec![
                        check("ci/build", Some(15368)),
                        check("ci/test", None),
                    ])),
                }),
                None,
                Some(RuleNode { parameters: None }),
                Some(RuleNode { parameters: Some(RuleParameters::RequiredStatusChecks(vec![])) }),
                Some(RuleNode { parameters: Some(RuleParameters::RequiredStatusChecks(vec![check("lint", Some(-1))])) }),
            ]),
        }))),
    };
    let checks = c.get_ruleset_required_checks(response);
    assert_eq!(checks.len(), 3);
    assert_eq!(checks[0].context, "ci/build");
    assert_eq!(checks[0].integration_id, Some(15368));
    assert_eq!(checks[1].context, "ci/test");
    assert_eq!(checks[1].integration_id, None);
    assert_eq!(checks[2].context, "lint");
    assert_eq!(checks[2].integration_id, Some(-1));
}

#[test]
fn required_checks_are_none_unless_the_id_is_a_ruleset_with_rules() {
    let c = GithubApiConnection {};
    assert_eq!(c.get_ruleset_required_checks(RequiredChecksResponse { node: None }).len(), 0);
    assert_eq!(c.get_ruleset_required_checks(RequiredChecksResponse { node: Some(ChecksNode::Other) }).len(), 0);
    assert_eq!(
        c.get_ruleset_required_checks(RequiredChecksResponse { node: Some(ChecksNode::RepositoryRuleset(None)) }).len(),
        0
    );
    assert_eq!(
        c.get_ruleset_required_checks(RequiredChecksResponse {
            node: Some(ChecksNode::RepositoryRuleset(Some(RuleConnection { nodes: None })))
        })
        .len(),
        0
    );
}
