use darpi::scheduler::{plan, CrossRef, ExecutionPlan, MiddlewareSpec, Phase, PlanError};

fn mw(phase: Phase, position: u16, refs: Vec<CrossRef>) -> MiddlewareSpec {
    MiddlewareSpec {
        phase,
        declared_position: position,
        cross_refs: refs,
    }
}

fn request_order(p: &ExecutionPlan) -> Vec<u16> {
    let mut out = Vec::new();
    let mut i = 0;
    while i < p.request_len() {
        out.push(p.request_order_at(i));
        i += 1;
    }
    out
}

fn response_order(p: &ExecutionPlan) -> Vec<u16> {
    let mut out = Vec::new();
    let mut i = 0;
    while i < p.response_len() {
        out.push(p.response_order_at(i));
        i += 1;
    }
    out
}

#[test]
fn middleware_main() {}

#[test]
fn cross_ref_out_of_bounds_fails_at_build_time() {
    // three request middleware; one references index 5, which does not
    // exist, so the plan is refused before any request could run.
    let specs = vec![
        mw(Phase::Request, 0, vec![]),
        mw(Phase::Request, 1, vec![CrossRef::Request(5)]),
        mw(Phase::Request, 2, vec![]),
    ];
    assert!(matches!(plan(specs), Err(PlanError::CrossRefOutOfBounds)));
}

#[test]
fn response_ref_from_request_chain_is_refused() {
    let specs = vec![
        mw(Phase::Request, 0, vec![CrossRef::Response(0)]),
        mw(Phase::Response, 0, vec![]),
    ];
    assert!(matches!(plan(specs), Err(PlanError::CrossRefOutOfBounds)));
}

#[test]
fn request_chain_orders_by_reference_sum() {
    // sums: 0, 2, 0 -> ties keep declaration order, so the execution
    // order is 0, 2, 1, and middleware 1 finds output 2 already written.
    let specs = vec![
        mw(Phase::Request, 0, vec![]),
        mw(Phase::Request, 1, vec![CrossRef::Request(2)]),
        mw(Phase::Request, 2, vec![]),
    ];
    let p = plan(specs).unwrap();
    assert_eq!(request_order(&p), vec![0, 2, 1]);
}

#[test]
fn request_chain_ties_keep_declaration_order() {
    let specs = vec![
        mw(Phase::Request, 0, vec![]),
        mw(Phase::Request, 1, vec![]),
        mw(Phase::Request, 2, vec![]),
    ];
    let p = plan(specs).unwrap();
    assert_eq!(request_order(&p), vec![0, 1, 2]);
}

#[test]
fn response_chain_runs_roughly_in_reverse() {
    // keys MAX - position - sum with no references: 65535, 65534, 65533
    // -> ascending keys run position 2 first.
    let specs = vec![
        mw(Phase::Response, 0, vec![]),
        mw(Phase::Response, 1, vec![]),
        mw(Phase::Response, 2, vec![]),
    ];
    let p = plan(specs).unwrap();
    assert_eq!(response_order(&p), vec![2, 1, 0]);
}

#[test]
fn response_references_shift_the_key_like_request_ones() {
    // position 0 with a reference to response 1: key 65535 - 0 - 1 =
    // 65534; position 1 with no refs: key 65534 as well -> tie keeps
    // declaration order 0 then 1; but 0 needs output 1 first, so the
    // order is not schedulable.
    let specs = vec![
        mw(Phase::Response, 0, vec![CrossRef::Response(1)]),
        mw(Phase::Response, 1, vec![]),
    ];
    assert!(matches!(plan(specs), Err(PlanError::CrossRefNotScheduled)));
}

#[test]
fn unschedulable_request_order_is_refused() {
    // sums: 1 and 0 -> order 1, 0; but middleware 1 asks for output 0,
    // which has not run yet at its position.
    let specs = vec![
        mw(Phase::Request, 0, vec![CrossRef::Request(1)]),
        mw(Phase::Request, 1, vec![CrossRef::Request(0)]),
    ];
    assert!(matches!(plan(specs), Err(PlanError::CrossRefNotScheduled)));
}

#[test]
fn dependent_request_middleware_runs_after_its_producer() {
    // middleware 1 references index 0, so both sums are 0 and the tie
    // keeps declaration order, under which the producer runs first.
    let specs = vec![
        mw(Phase::Request, 0, vec![]),
        mw(Phase::Request, 1, vec![CrossRef::Request(0)]),
    ];
    let p = plan(specs).unwrap();
    assert_eq!(request_order(&p), vec![0, 1]);
}

#[test]
fn response_middleware_may_use_request_outputs_freely() {
    let specs = vec![
        mw(Phase::Request, 0, vec![]),
        mw(Phase::Response, 0, vec![CrossRef::Request(0)]),
    ];
    let p = plan(specs).unwrap();
    assert_eq!(request_order(&p), vec![0]);
    assert_eq!(response_order(&p), vec![0]);
}

#[test]
fn empty_declaration_plans_empty_chains() {
    let p = plan(Vec::new()).unwrap();
    assert_eq!(p.request_len(), 0);
    assert_eq!(p.response_len(), 0);
}
