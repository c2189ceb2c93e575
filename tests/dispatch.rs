use eka_ci::protocol::{handle_request, BuildRequest, ClientRequest, ClientResponse, JobRequest, ServerStatus};
use eka_ci::store::Store;
use eka_ci::walker::{Dispatcher, EvalJob, EvalTask, NixEvalDrv, NixEvalError, NixEvalItem, TaskAction};

#[test]
fn info_round_trip() {
    let (resp, task) = handle_request(ClientRequest::Info);
    assert!(task.is_none());
    match resp {
        ClientResponse::Info(info) => {
            assert_eq!(info.status, ServerStatus::Active);
            assert!(!info.version.is_empty());
        }
        _ => panic!("expected an info response"),
    }
}

#[test]
fn build_request_is_enqueued() {
    let drv = "jd83l3jn2mkn530lgcg0y523jq5qji85-hello-2.12.1.drv".to_string();
    let (resp, task) = handle_request(ClientRequest::Build(BuildRequest { drv_path: drv.clone() }));
    assert!(matches!(resp, ClientResponse::Build(b) if b.enqueued));
    assert!(matches!(task, Some(EvalTask::TraverseDrv(d)) if d == drv));
    let (resp, task) = handle_request(ClientRequest::Job(JobRequest { file_path: "/abs/job.nix".to_string() }));
    assert!(matches!(resp, ClientResponse::Job(j) if j.enqueued));
    assert!(matches!(task, Some(EvalTask::Job(j)) if j.file_path == "/abs/job.nix"));
}

/// Runs a traversal the way the server does, answering reference queries from `refs` and
/// counting them.
fn traverse(dispatcher: &mut Dispatcher, store: &mut Store, root: &str, refs: &dyn Fn(&str) -> String, queries: &mut Vec<String>) {
    match dispatcher.handle_task(store, EvalTask::TraverseDrv(root.to_string())) {
        TaskAction::Walk(mut walk) => {
            while let Some(q) = walk.next_query(dispatcher, store) {
                queries.push(q.clone());
                let out = refs(&q);
                walk.record(dispatcher, q, &out);
            }
            store.insert_drv_graph(&walk.finish(), &"x86_64-linux".to_string()).unwrap();
        }
        TaskAction::Skip => {}
        TaskAction::Evaluate(_) => panic!("a traversal is never an evaluation"),
    }
}

fn shared_closure(drv: &str) -> String {
    match drv {
        "app1.drv" | "app2.drv" => {
            let mut out = String::new();
            for i in 0..100 {
                out.push_str(&format!("/nix/store/shared{i}.drv\n"));
            }
            out.push_str("/nix/store/some-source\n");
            out
        }
        _ => String::new(),
    }
}

#[test]
fn traversal_is_memoized() {
    let mut dispatcher = Dispatcher::new();
    let mut store = Store::new();
    let mut first = Vec::new();
    traverse(&mut dispatcher, &mut store, "/nix/store/app1.drv", &shared_closure, &mut first);
    assert_eq!(first.len(), 101);
    let mut second = Vec::new();
    traverse(&mut dispatcher, &mut store, "/nix/store/app2.drv", &shared_closure, &mut second);
    assert_eq!(second, vec!["app2.drv".to_string()]);
    assert_eq!(store.drv_count(), 102);
    assert_eq!(store.ref_count(), 200);
    let mut third = Vec::new();
    traverse(&mut dispatcher, &mut store, "/nix/store/app2.drv", &shared_closure, &mut third);
    assert!(third.is_empty());
}

#[test]
fn build_enqueue_records_references() {
    let mut dispatcher = Dispatcher::new();
    let mut store = Store::new();
    let fake = |d: &str| {
        if d.ends_with("hello-2.12.1.drv") {
            "/nix/store/r1-glibc.drv\n/nix/store/r2-gcc.drv\n".to_string()
        } else {
            String::new()
        }
    };
    let (_, task) = handle_request(ClientRequest::Build(BuildRequest {
        drv_path: "jd83l3jn2mkn530lgcg0y523jq5qji85-hello-2.12.1.drv".to_string(),
    }));
    let Some(EvalTask::TraverseDrv(root)) = task else { panic!("expected a traversal") };
    let mut queries = Vec::new();
    traverse(&mut dispatcher, &mut store, &root, &fake, &mut queries);
    assert!(store.has_drv("jd83l3jn2mkn530lgcg0y523jq5qji85-hello-2.12.1.drv"));
    assert!(store.has_drv("r1-glibc.drv") && store.has_drv("r2-gcc.drv"));
    assert_eq!(store.ref_count(), 2);
}

#[test]
fn evaluator_records_become_tasks() {
    let drv = NixEvalItem::Drv(NixEvalDrv {
        attr: "grpc".to_string(),
        attr_path: vec!["grpc".to_string()],
        drv_path: "/nix/store/qkg-grpc-1.70.0.drv".to_string(),
        input_drvs: Vec::new(),
        name: "grpc-1.70.0".to_string(),
        outputs: vec![("out".to_string(), "/nix/store/rn3-grpc-1.70.0".to_string())],
        system: "x86_64-linux".to_string(),
    });
    assert!(matches!(Dispatcher::task_for_item(&drv), Some(EvalTask::TraverseDrv(p)) if p == "/nix/store/qkg-grpc-1.70.0.drv"));
    let err = NixEvalItem::Error(NixEvalError {
        attr: "x".to_string(),
        attr_path: vec!["x".to_string()],
        error: "error: removed".to_string(),
    });
    assert!(Dispatcher::task_for_item(&err).is_none());
    let store = Store::new();
    let action = Dispatcher::new().handle_task(&store, EvalTask::Job(EvalJob { file_path: "/j.nix".to_string() }));
    assert!(matches!(action, TaskAction::Evaluate(f) if f == "/j.nix"));
}

#[test]
fn stored_derivation_by_full_path_is_skipped() {
    let mut store = Store::new();
    store.insert_drv_graph(&vec![("abc-hello.drv".to_string(), vec![])], &"x86_64-linux".to_string()).unwrap();
    assert!(store.has_drv("/nix/store/abc-hello.drv"));
    let dispatcher = Dispatcher::new();
    let action = dispatcher.handle_task(&store, EvalTask::TraverseDrv("/nix/store/abc-hello.drv".to_string()));
    assert!(matches!(action, TaskAction::Skip));
}

#[test]
fn walk_skips_stored_references() {
    let mut dispatcher = Dispatcher::new();
    let mut store = Store::new();
    store.insert_drv_graph(&vec![("base.drv".to_string(), vec![])], &"x86_64-linux".to_string()).unwrap();
    let refs = |d: &str| if d == "top.drv" { "/nix/store/base.drv\n".to_string() } else { String::new() };
    let mut queries = Vec::new();
    traverse(&mut dispatcher, &mut store, "/nix/store/top.drv", &refs, &mut queries);
    assert_eq!(queries, vec!["top.drv".to_string()]);
    assert!(store.has_ref(&"top.drv".to_string(), &"base.drv".to_string()));
}
