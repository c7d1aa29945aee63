use std::collections::HashMap;

use llrv::churn::{join_file_path, plan, rotation_target, Action, ActionWeights, FsOp, Worker};
use llrv::pool::{build_pool, insert_unique};

fn weights(delete: u32, create: u32, write_to: u32, rotate: u32, truncate: u32) -> ActionWeights {
    ActionWeights { delete, create, write_to, rotate, truncate }
}

fn apply(fs: &mut HashMap<String, String>, ops: &[FsOp]) {
    for op in ops {
        match op {
            FsOp::OpenTruncate { path } => {
                fs.insert(path.clone(), String::new());
            }
            FsOp::Remove { path } => {
                fs.remove(path);
            }
            FsOp::Rename { from, to } => {
                if let Some(c) = fs.remove(from) {
                    fs.insert(to.clone(), c);
                }
            }
            FsOp::AppendLine { path, line } => {
                let c = fs.entry(path.clone()).or_default();
                c.push_str(line);
                c.push('\n');
            }
        }
    }
}

#[test]
fn weights_cut_draws_into_bands() {
    let w = weights(5, 10, 70, 10, 5);
    assert_eq!(w.total(), 100);
    assert_eq!(w.pick(0), Action::Delete);
    assert_eq!(w.pick(4), Action::Delete);
    assert_eq!(w.pick(5), Action::Create);
    assert_eq!(w.pick(14), Action::Create);
    assert_eq!(w.pick(15), Action::Rotate);
    assert_eq!(w.pick(24), Action::Rotate);
    assert_eq!(w.pick(25), Action::Truncate);
    assert_eq!(w.pick(29), Action::Truncate);
    assert_eq!(w.pick(30), Action::WriteTo);
    assert_eq!(w.pick(99), Action::WriteTo);
    let only_writes = weights(0, 0, 1, 0, 0);
    assert_eq!(only_writes.pick(0), Action::WriteTo);
}

#[test]
fn closed_slot_is_opened_first() {
    let p = plan(false, &"/a.log".to_string(), Action::Create, &"x".to_string());
    assert_eq!(p.ops.len(), 1);
    assert!(matches!(&p.ops[0], FsOp::OpenTruncate { path } if path == "/a.log"));
    assert!(p.open_after);
    assert!(p.record.is_none());
    let p = plan(true, &"/a.log".to_string(), Action::Create, &"x".to_string());
    assert!(p.ops.is_empty());
}

#[test]
fn delete_closes_and_write_records() {
    let p = plan(true, &"/a.log".to_string(), Action::Delete, &"x".to_string());
    assert!(!p.open_after);
    assert!(matches!(&p.ops[..], [FsOp::Remove { path }] if path == "/a.log"));
    let p = plan(true, &"/a.log".to_string(), Action::WriteTo, &"x".to_string());
    assert!(p.open_after);
    assert_eq!(p.record, Some("x".to_string()));
    assert!(matches!(&p.ops[..], [FsOp::AppendLine { path, line }] if path == "/a.log" && line == "x"));
}

#[test]
fn rotate_then_write_keeps_old_content_in_sibling() {
    let path = "/a.log".to_string();
    let mut fs = HashMap::new();
    apply(&mut fs, &plan(false, &path, Action::WriteTo, &"x".to_string()).ops);
    apply(&mut fs, &plan(true, &path, Action::Rotate, &"ignored".to_string()).ops);
    assert_eq!(fs.get("/a.log.1").map(String::as_str), Some("x\n"));
    assert_eq!(fs.get("/a.log").map(String::as_str), Some(""));
    apply(&mut fs, &plan(true, &path, Action::WriteTo, &"y".to_string()).ops);
    assert_eq!(fs.get("/a.log.1").map(String::as_str), Some("x\n"));
    assert_eq!(fs.get("/a.log").map(String::as_str), Some("y\n"));
}

#[test]
fn truncate_clears_content() {
    let path = "/t.log".to_string();
    let mut fs = HashMap::new();
    apply(&mut fs, &plan(false, &path, Action::WriteTo, &"x".to_string()).ops);
    apply(&mut fs, &plan(true, &path, Action::Truncate, &"x".to_string()).ops);
    assert_eq!(fs.get("/t.log").map(String::as_str), Some(""));
}

#[test]
fn paths_are_joined() {
    assert_eq!(rotation_target(&"/a.log".to_string()), "/a.log.1");
    assert_eq!(join_file_path(&"/tmp/x".to_string(), &"abc".to_string()), "/tmp/x/abc.log");
}

#[test]
fn worker_needs_positive_sizes() {
    let w = weights(5, 10, 70, 10, 5);
    let root = "/tmp/churn".to_string();
    assert!(Worker::new(&root, 0, 10, 10, w).is_none());
    assert!(Worker::new(&root, 3, 0, 10, w).is_none());
    assert!(Worker::new(&root, 3, 10, 0, w).is_none());
    assert!(Worker::new(&root, 3, 10, 10, weights(0, 0, 0, 0, 0)).is_none());
}

#[test]
fn worker_steps_follow_plans() {
    let w = weights(5, 10, 70, 10, 5);
    let mut worker = Worker::new(&"/tmp/churn".to_string(), 4, 20, 16, w).unwrap();
    assert!(worker.slots.len() >= 1 && worker.slots.len() <= 4);
    assert!(worker.slots.iter().all(|s| !s.open && s.path.starts_with("/tmp/churn/") && s.path.ends_with(".log")));
    assert!(worker.lines.iter().all(|l| l.len() < 20));
    for (i, a) in worker.slots.iter().enumerate() {
        assert_eq!(a.path.len(), "/tmp/churn/".len() + 32 + ".log".len());
        for b in worker.slots.iter().skip(i + 1) {
            assert_ne!(a.path, b.path);
        }
    }
    let p = worker.step(0, Action::WriteTo, 0);
    assert!(worker.slots[0].open);
    assert_eq!(p.record.as_ref(), Some(&worker.lines[0]));
    assert_eq!(p.ops.len(), 2);
    let p = worker.step(0, Action::Delete, 0);
    assert!(!worker.slots[0].open);
    assert_eq!(p.ops.len(), 1);
    for _ in 0..100 {
        let st = worker.next_step();
        assert!(st.slot < worker.slots.len());
        assert_eq!(worker.slots[st.slot].open, st.action != Action::Delete);
    }
}

#[test]
fn pool_is_sorted_and_distinct() {
    let pool = build_pool(64, 8);
    assert!(!pool.is_empty() && pool.len() <= 64);
    for pair in pool.windows(2) {
        assert!(pair[0] < pair[1]);
    }
    assert!(pool.iter().all(|s| s.len() < 8 && s.chars().all(|c| c.is_ascii_alphanumeric())));
}

#[test]
fn insert_unique_skips_duplicates() {
    let mut pool = Vec::new();
    assert!(insert_unique(&mut pool, "m".to_string()));
    assert!(insert_unique(&mut pool, "a".to_string()));
    assert!(insert_unique(&mut pool, "z".to_string()));
    assert!(!insert_unique(&mut pool, "m".to_string()));
    assert_eq!(pool, vec!["a".to_string(), "m".to_string(), "z".to_string()]);
}
