use ads_search::routing::Router;
use ads_search::routing::RouteMode;
use ads_search::update_plan::{
    after_adds, after_deletes, nothing_to_update_reply, plan_routes, rollback_plan, settle_phase,
    start_update, DeletePhaseEnd, KeywordWrite, RollbackStep, UpdateReply, UpdateStart,
    UpdateVerdict,
};

fn write(k: &str) -> KeywordWrite {
    KeywordWrite {
        keyword: k.to_string(),
        prefix: "3".to_string(),
        node_name: "storager-0".to_string(),
        addr: "a".to_string(),
    }
}

fn strings(v: &[&str]) -> Vec<String> {
    v.iter().map(|s| s.to_string()).collect()
}

#[test]
fn nothing_to_update_without_keywords() {
    assert_eq!(start_update(&vec![], &vec![]), UpdateStart::NothingToDo);
}

#[test]
fn update_phases_take_each_keyword_once() {
    match start_update(&strings(&["a", "b", "a"]), &strings(&["c", "c"])) {
        UpdateStart::Phases { mut deletes, adds } => {
            deletes.sort();
            assert_eq!(deletes, strings(&["a", "b"]));
            assert_eq!(adds, strings(&["c"]));
        }
        UpdateStart::NothingToDo => panic!("phases expected"),
    }
    match start_update(&vec![], &strings(&["x"])) {
        UpdateStart::Phases { deletes, adds } => {
            assert!(deletes.is_empty());
            assert_eq!(adds, strings(&["x"]));
        }
        UpdateStart::NothingToDo => panic!("phases expected"),
    }
}

#[test]
fn plan_routes_follow_the_router() {
    let router = Router::new(strings(&["a", "b"]), 10);
    let kws = strings(&["alpha", "beta"]);
    let plan = plan_routes(&router, &kws);
    assert_eq!(plan.len(), 2);
    for (k, t) in kws.iter().zip(plan.iter()) {
        assert_eq!(*t, router.route_keyword(k));
    }
}

#[test]
fn settle_phase_stops_at_the_first_failure() {
    let replies = vec![Ok(write("a")), Err("boom".to_string()), Ok(write("c")), Err("late".to_string())];
    let o = settle_phase(&replies);
    assert_eq!(o.done, vec![write("a")]);
    assert_eq!(o.failure, Some("boom".to_string()));
    let all_ok = vec![Ok(write("a")), Ok(write("b"))];
    let o = settle_phase(&all_ok);
    assert_eq!(o.done.len(), 2);
    assert_eq!(o.failure, None);
}

#[test]
fn rollback_readds_then_removes() {
    let steps = rollback_plan(&vec![write("d1"), write("d2")], &strings(&["a1"]));
    assert_eq!(
        steps,
        vec![
            RollbackStep::ReAdd(write("d1")),
            RollbackStep::ReAdd(write("d2")),
            RollbackStep::Remove("a1".to_string()),
        ]
    );
}

#[test]
fn empty_update_replies_success() {
    assert_eq!(
        nothing_to_update_reply(RouteMode::Epring, "unknown".to_string()),
        UpdateReply {
            success: true,
            message: "No keywords to update".to_string(),
            combined_proof: vec![],
            combined_root_hash: vec![],
            combined_root_accumulator: vec![],
            route_mode: "epring".to_string(),
            persistence_mode: "unknown".to_string(),
        }
    );
}

#[test]
fn failed_delete_fails_the_update_before_any_add() {
    let e = after_deletes(&vec![Ok(write("d")), Err("no".to_string()), Err("later".to_string())], &strings(&["a"]));
    assert_eq!(e, DeletePhaseEnd::Fail("no".to_string()));
    let e = after_deletes(&vec![Ok(write("d"))], &strings(&["a"]));
    assert_eq!(e, DeletePhaseEnd::SendAdds { deleted: vec![write("d")], adds: strings(&["a"]) });
}

#[test]
fn failed_add_rolls_back_every_written_keyword() {
    let v = after_adds(
        &vec![write("d")],
        &vec![Ok(write("a1")), Err("add failed".to_string()), Ok(write("a3")), Err("other".to_string())],
    );
    assert_eq!(
        v,
        UpdateVerdict::RollBack {
            steps: vec![
                RollbackStep::ReAdd(write("d")),
                RollbackStep::Remove("a1".to_string()),
                RollbackStep::Remove("a3".to_string()),
            ],
            message: "Update failed during add phase: add failed".to_string(),
        }
    );
    let v = after_adds(&vec![], &vec![Err("x".to_string()), Ok(write("w"))]);
    assert_eq!(
        v,
        UpdateVerdict::RollBack {
            steps: vec![RollbackStep::Remove("w".to_string())],
            message: "Update failed during add phase: x".to_string(),
        }
    );
}

#[test]
fn successful_update_commits() {
    let v = after_adds(&vec![write("d")], &vec![Ok(write("a"))]);
    assert_eq!(
        v,
        UpdateVerdict::Commit { deleted: vec![write("d")], added: vec![write("a")] }
    );
}
