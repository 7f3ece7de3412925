use error_boundary::{Boundary, ErrorKey, ErrorValue, RenderContext, Rendered};

fn key(s: &str) -> ErrorKey {
    ErrorKey::new(s.to_string())
}

fn err(s: &str) -> ErrorValue {
    ErrorValue::new(s.to_string())
}

/// All (key, message) pairs the context's boundary currently holds.
fn pairs_of(ctx: &RenderContext) -> Vec<(String, String)> {
    let errors = ctx.errors().expect("a boundary is active");
    let mut it = errors.iter();
    let mut seen: Vec<(String, String)> = Vec::new();
    while let Some((k, e)) = it.next() {
        seen.push((k.as_str().to_string(), e.message().to_string()));
    }
    seen.sort();
    seen
}

#[test]
fn failing_node_inserts_one_entry_then_success_clears_it() {
    let mut ctx = RenderContext::new(Some(Boundary::new()), true);
    let out = ctx.render_result::<i32>(Err(err("boom")), key("node-1"));
    assert!(matches!(out, Rendered::Placeholder));
    assert_eq!(pairs_of(&ctx), vec![("node-1".to_string(), "boom".to_string())]);

    let out = ctx.render_result::<i32>(Ok(42), key("node-1"));
    match out {
        Rendered::Children(v) => assert_eq!(v, 42),
        Rendered::Placeholder => panic!("a success must render its value"),
    }
    // The boundary now sees no failures and shows children, not fallback.
    assert!(ctx.errors().unwrap().is_empty());
}

#[test]
fn distinct_nodes_coexist_until_independently_resolved() {
    let mut ctx = RenderContext::new(Some(Boundary::new()), true);
    ctx.render_result::<i32>(Err(err("first")), key("node-a"));
    ctx.render_result::<i32>(Err(err("second")), key("node-b"));
    assert_eq!(
        pairs_of(&ctx),
        vec![
            ("node-a".to_string(), "first".to_string()),
            ("node-b".to_string(), "second".to_string()),
        ]
    );

    ctx.render_result::<i32>(Ok(1), key("node-a"));
    assert_eq!(pairs_of(&ctx), vec![("node-b".to_string(), "second".to_string())]);

    ctx.render_result::<i32>(Ok(2), key("node-b"));
    assert!(ctx.errors().unwrap().is_empty());
}

#[test]
fn repeated_failure_at_one_position_overwrites() {
    let mut ctx = RenderContext::new(Some(Boundary::new()), true);
    ctx.render_result::<i32>(Err(err("first")), key("node-1"));
    ctx.render_result::<i32>(Err(err("second")), key("node-1"));
    assert_eq!(pairs_of(&ctx), vec![("node-1".to_string(), "second".to_string())]);
}

#[test]
fn no_boundary_failure_never_aborts_and_touches_nothing() {
    let mut ctx = RenderContext::new(None, true);
    let out = ctx.render_result::<i32>(Err(err("dropped")), key("node-1"));
    assert!(matches!(out, Rendered::Placeholder));
    assert!(ctx.errors().is_none());

    let out = ctx.render_result::<i32>(Ok(5), key("node-1"));
    match out {
        Rendered::Children(v) => assert_eq!(v, 5),
        Rendered::Placeholder => panic!("a success must render its value"),
    }
    assert!(ctx.errors().is_none());
    assert!(ctx.into_boundary().is_none());
}

#[test]
fn unmount_after_failure_clears_entry_once_deferred_cleanup_runs() {
    let mut ctx = RenderContext::new(Some(Boundary::new()), true);
    ctx.render_result::<i32>(Err(err("boom")), key("node-1"));
    ctx.unmount(&key("node-1"));
    // The removal is deferred: nothing changes until the pass finishes.
    assert_eq!(pairs_of(&ctx), vec![("node-1".to_string(), "boom".to_string())]);
    ctx.run_deferred();
    assert!(ctx.errors().unwrap().is_empty());
}

#[test]
fn unmount_of_never_failed_node_schedules_nothing() {
    let mut ctx = RenderContext::new(Some(Boundary::new()), true);
    ctx.render_result::<i32>(Err(err("kept")), key("node-1"));
    ctx.unmount(&key("other"));
    ctx.run_deferred();
    assert_eq!(pairs_of(&ctx), vec![("node-1".to_string(), "kept".to_string())]);
}

#[test]
fn without_deferred_cleanup_support_unmount_leaves_entry() {
    // A host without client-side cleanup (server-only rendering) registers
    // no cleanup, so unmounting schedules nothing.
    let mut ctx = RenderContext::new(Some(Boundary::new()), false);
    ctx.render_result::<i32>(Err(err("boom")), key("node-1"));
    ctx.unmount(&key("node-1"));
    ctx.run_deferred();
    assert_eq!(pairs_of(&ctx), vec![("node-1".to_string(), "boom".to_string())]);
}

#[test]
fn stale_cleanup_after_success_is_harmless() {
    // Fail, then succeed at the same position: the entry is removed
    // synchronously, and the cleanup registered by the earlier failure
    // later removes an absent key, a no-op.
    let mut ctx = RenderContext::new(Some(Boundary::new()), true);
    ctx.render_result::<i32>(Err(err("boom")), key("node-1"));
    ctx.render_result::<i32>(Ok(1), key("node-1"));
    ctx.unmount(&key("node-1"));
    ctx.run_deferred();
    assert!(ctx.errors().unwrap().is_empty());
}

#[test]
fn boundary_state_survives_the_context() {
    let mut ctx = RenderContext::new(Some(Boundary::new()), true);
    ctx.render_result::<i32>(Err(err("boom")), key("node-1"));
    let boundary = ctx.into_boundary().expect("a boundary was supplied");
    assert!(!boundary.errors().is_empty());
}

#[test]
fn boundary_methods_follow_the_state_machine() {
    // Absent -[insert]-> Present -[remove]-> Absent, directly on a boundary.
    let mut b = Boundary::new();
    assert!(b.errors().is_empty());
    b.report_failure(key("node-1"), err("boom"), true);
    assert!(!b.errors().is_empty());
    b.resolve_success(&key("node-1"));
    assert!(b.errors().is_empty());
}
