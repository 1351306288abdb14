//! Flattening the backend's project listing into rule identifiers and
//! bodies.

use vstd::prelude::*;

verus! {

/// One rule's script, as stored.
pub struct RuleBody {
    pub body: String,
}

/// One rule of a project: its identifier and its script.
pub struct ProjectRule {
    pub id: String,
    pub rule: RuleBody,
}

/// A project and its rules.
pub struct ProjectRules {
    pub project_rules: Vec<ProjectRule>,
}

/// One row of the project query.
pub struct UserProject {
    pub project: ProjectRules,
}

/// The identifier-and-body pairs of one project's rules, in order.
pub open spec fn project_pairs(p: UserProject) -> Seq<(Seq<char>, Seq<char>)> {
    p.project.project_rules@.map_values(|pr: ProjectRule| (pr.id@, pr.rule.body@))
}

/// The identifier-and-body pairs of every project's rules, project by
/// project in order.
pub open spec fn all_pairs(projects: Seq<UserProject>) -> Seq<(Seq<char>, Seq<char>)>
    decreases projects.len(),
{
    if projects.len() == 0 {
        Seq::empty()
    } else {
        project_pairs(projects[0]) + all_pairs(projects.drop_first())
    }
}

/// Flattens the project listing into the rules to run: each rule's
/// identifier and script, project by project in order; see `all_pairs`.
#[verifier::loop_isolation(false)]
pub fn get_user_rules(projects: Vec<UserProject>) -> (r: Vec<(String, String)>)
    ensures
        r@.len() == all_pairs(projects@).len(),
        forall|k: int|
            0 <= k < r@.len() ==> ((#[trigger] r@[k]).0@, r@[k].1@) == all_pairs(projects@)[k],
{
    let ghost goal = all_pairs(projects@);
    let n = projects.len();
    let mut out: Vec<(String, String)> = Vec::new();
    let mut i: usize = 0;
    proof {
        assert(projects@.skip(0) =~= projects@);
        assert(out_pairs(out@) =~= Seq::<(Seq<char>, Seq<char>)>::empty());
    }
    while i < n
        invariant
            i <= n,
            n == projects@.len(),
            goal == all_pairs(projects@),
            goal =~= out_pairs(out@) + all_pairs(projects@.skip(i as int)),
            out_pairs(out@).len() == out@.len(),
            forall|k: int|
                0 <= k < out@.len() ==> #[trigger] out_pairs(out@)[k] == (out@[k].0@, out@[k].1@),
        decreases n - i,
    {
        proof {
            assert(projects@.skip(i as int)[0] == projects@[i as int]);
            assert(projects@.skip(i as int).drop_first() =~= projects@.skip(i + 1));
        }
        let rules = &projects[i].project.project_rules;
        let m = rules.len();
        let mut j: usize = 0;
        while j < m
            invariant
                j <= m,
                m == rules@.len(),
                goal == all_pairs(projects@),
                goal =~= out_pairs(out@) + project_pairs(projects@[i as int]).skip(j as int)
                    + all_pairs(projects@.skip(i + 1)),
                out_pairs(out@).len() == out@.len(),
                forall|k: int|
                    0 <= k < out@.len() ==> #[trigger] out_pairs(out@)[k] == (
                        out@[k].0@,
                        out@[k].1@,
                    ),
            decreases m - j,
        {
            let id = rules[j].id.clone();
            let body = rules[j].rule.body.clone();
            out.push((id, body));
            proof {
                assert(out_pairs(out@) =~= out_pairs(out@.drop_last()).push(
                    (out@.last().0@, out@.last().1@),
                ));
                assert(project_pairs(projects@[i as int]).skip(j as int)[0] == (
                    rules@[j as int].id@,
                    rules@[j as int].rule.body@,
                ));
                assert(project_pairs(projects@[i as int]).skip(j as int).drop_first()
                    =~= project_pairs(projects@[i as int]).skip(j + 1));
                assert(out_pairs(out@) + project_pairs(projects@[i as int]).skip(j + 1)
                    + all_pairs(projects@.skip(i + 1)) =~= out_pairs(out@.drop_last())
                    + project_pairs(projects@[i as int]).skip(j as int) + all_pairs(
                    projects@.skip(i + 1),
                ));
            }
            j += 1;
        }
        proof {
            assert(project_pairs(projects@[i as int]).skip(m as int) =~= Seq::<
                (Seq<char>, Seq<char>),
            >::empty());
            assert(out_pairs(out@) + all_pairs(projects@.skip(i + 1)) =~= out_pairs(out@)
                + project_pairs(projects@[i as int]).skip(m as int) + all_pairs(
                projects@.skip(i + 1),
            ));
        }
        i += 1;
    }
    proof {
        assert(all_pairs(projects@.skip(n as int)) =~= Seq::<(Seq<char>, Seq<char>)>::empty());
        assert(goal =~= out_pairs(out@));
    }
    out
}

/// The models of the gathered pairs.
pub open spec fn out_pairs(v: Seq<(String, String)>) -> Seq<(Seq<char>, Seq<char>)> {
    v.map_values(|p: (String, String)| (p.0@, p.1@))
}

} // verus!
