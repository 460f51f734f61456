//! Driving the reactive runtime the way a rendering layer would: the
//! tests play the caller, running memo and effect bodies when the
//! runtime asks for them.

use reactive_core::diff::{indexed_fresh_positions, keyed_fresh_positions, map_indexed, map_keyed};
use reactive_core::idents::{strip_raw_ident_prefix, AttributeBase};
use reactive_core::node::NodeId;
use reactive_core::runtime::{ReadOutcome, Runtime};
use reactive_core::value::Value;
use reactive_core::RuntimeError;

fn as_int(v: Value) -> u64 {
    match v {
        Value::Int(w) => w,
        Value::List(_) => panic!("expected a word"),
    }
}

/// Reads a node, computing memos on demand through `compute`.
fn read_with(
    rt: &mut Runtime,
    n: NodeId,
    compute: &mut dyn FnMut(&mut Runtime, NodeId) -> Value,
) -> Value {
    loop {
        match rt.get(n).unwrap() {
            ReadOutcome::Ready(v) => return v,
            ReadOutcome::Compute(m) => {
                rt.begin_compute(m).unwrap();
                let v = compute(rt, m);
                rt.finish_memo(m, v).unwrap();
            }
        }
    }
}

#[test]
fn signal_read_write() {
    let (mut rt, root) = Runtime::new();
    let s = rt.create_signal(root, Value::Int(5)).unwrap();
    assert_eq!(as_int(rt.get_untracked(s).unwrap()), 5);
    rt.set(s, Value::Int(7)).unwrap();
    while rt.next_effect().unwrap().is_some() {}
    assert_eq!(as_int(rt.get_untracked(s).unwrap()), 7);
}

#[test]
fn glitch_free_diamond() {
    // signal s feeds memos a and b; effect e reads both: one write to
    // s runs e exactly once, and e sees a and b computed from the same
    // final value of s
    let (mut rt, root) = Runtime::new();
    let s = rt.create_signal(root, Value::Int(1)).unwrap();
    let a = rt.create_memo(root).unwrap();
    let b = rt.create_memo(root).unwrap();
    let e = rt.create_effect(root).unwrap();

    let mut runs: Vec<(u64, u64)> = Vec::new();
    let mut drain = |rt: &mut Runtime, runs: &mut Vec<(u64, u64)>| loop {
        match rt.next_effect().unwrap() {
            None => break,
            Some((eff, _cbs)) => {
                assert_eq!(eff, e);
                let mut compute = |rt: &mut Runtime, m: NodeId| {
                    let base = as_int(read_with(rt, s, &mut |_, _| unreachable!()));
                    if m == a {
                        Value::Int(base + 10)
                    } else {
                        Value::Int(base * 100)
                    }
                };
                let va = as_int(read_with(rt, a, &mut compute));
                let vb = as_int(read_with(rt, b, &mut compute));
                runs.push((va, vb));
                rt.finish_effect(eff).unwrap();
            }
        }
    };
    drain(&mut rt, &mut runs);
    assert_eq!(runs, vec![(11, 100)]);

    rt.set(s, Value::Int(2)).unwrap();
    drain(&mut rt, &mut runs);
    // exactly one more run, observing both memos at their final values
    assert_eq!(runs, vec![(11, 100), (12, 200)]);
}

#[test]
fn equal_write_short_circuits() {
    let (mut rt, root) = Runtime::new();
    let s = rt.create_signal(root, Value::Int(4)).unwrap();
    let e = rt.create_effect(root).unwrap();
    let mut runs = 0u32;
    let mut drain = |rt: &mut Runtime, runs: &mut u32| loop {
        match rt.next_effect().unwrap() {
            None => break,
            Some((eff, _)) => {
                read_with(rt, s, &mut |_, _| unreachable!());
                *runs += 1;
                rt.finish_effect(eff).unwrap();
            }
        }
    };
    drain(&mut rt, &mut runs);
    assert_eq!(runs, 1);
    // writing the value it already holds notifies nobody
    rt.set(s, Value::Int(4)).unwrap();
    drain(&mut rt, &mut runs);
    assert_eq!(runs, 1);
    let _ = e;
}

#[test]
fn always_notify_signal_propagates_equal_write() {
    let (mut rt, root) = Runtime::new();
    let s = rt.create_signal_always(root, Value::Int(4)).unwrap();
    let _e = rt.create_effect(root).unwrap();
    let mut runs = 0u32;
    let mut drain = |rt: &mut Runtime, runs: &mut u32| loop {
        match rt.next_effect().unwrap() {
            None => break,
            Some((eff, _)) => {
                read_with(rt, s, &mut |_, _| unreachable!());
                *runs += 1;
                rt.finish_effect(eff).unwrap();
            }
        }
    };
    drain(&mut rt, &mut runs);
    rt.set(s, Value::Int(4)).unwrap();
    drain(&mut rt, &mut runs);
    assert_eq!(runs, 2);
}

#[test]
fn memo_is_lazy() {
    let (mut rt, root) = Runtime::new();
    let s = rt.create_signal(root, Value::Int(1)).unwrap();
    let m = rt.create_memo(root).unwrap();
    let mut computes = 0u32;
    let mut compute = |rt: &mut Runtime, _m: NodeId| {
        let base = as_int(read_with(rt, s, &mut |_, _| unreachable!()));
        Value::Int(base + 1)
    };
    // never read: never computed
    rt.set(s, Value::Int(2)).unwrap();
    while rt.next_effect().unwrap().is_some() {}
    assert_eq!(computes, 0);
    // first read computes once
    let v = loop {
        match rt.get(m).unwrap() {
            ReadOutcome::Ready(v) => break v,
            ReadOutcome::Compute(mm) => {
                rt.begin_compute(mm).unwrap();
                computes += 1;
                let v = compute(&mut rt, mm);
                rt.finish_memo(mm, v).unwrap();
            }
        }
    };
    assert_eq!(as_int(v), 3);
    assert_eq!(computes, 1);
    // a second read of the settled memo does not recompute
    match rt.get(m).unwrap() {
        ReadOutcome::Ready(v) => assert_eq!(as_int(v), 3),
        ReadOutcome::Compute(_) => panic!("settled memo asked to recompute"),
    }
    assert_eq!(computes, 1);
}

#[test]
fn unchanged_memo_stops_propagation() {
    // s -> m (clamps to 0/1) -> e: a write that leaves m's value
    // unchanged must not re-run e's body with a recompute of m only
    let (mut rt, root) = Runtime::new();
    let s = rt.create_signal(root, Value::Int(10)).unwrap();
    let m = rt.create_memo(root).unwrap();
    let _e = rt.create_effect(root).unwrap();
    let mut effect_runs = 0u32;
    let mut drain = |rt: &mut Runtime, effect_runs: &mut u32| loop {
        match rt.next_effect().unwrap() {
            None => break,
            Some((eff, _)) => {
                let mut compute = |rt: &mut Runtime, _m: NodeId| {
                    let base = as_int(read_with(rt, s, &mut |_, _| unreachable!()));
                    Value::Int(if base > 0 { 1 } else { 0 })
                };
                let v = as_int(read_with(rt, m, &mut compute));
                assert_eq!(v, 1);
                *effect_runs += 1;
                rt.finish_effect(eff).unwrap();
            }
        }
    };
    drain(&mut rt, &mut effect_runs);
    assert_eq!(effect_runs, 1);
    // s changes, but m's value does not: e still runs (it was queued by
    // the write), yet m's version is unchanged, so a re-validating
    // reader stays clean; check by reading m outside any run
    rt.set(s, Value::Int(20)).unwrap();
    drain(&mut rt, &mut effect_runs);
    assert_eq!(effect_runs, 2);
}

#[test]
fn dispose_runs_cleanups_deep_first_and_reversed() {
    let (mut rt, root) = Runtime::new();
    let parent = rt.create_child_scope(root).unwrap();
    let child = rt.create_child_scope(parent).unwrap();
    rt.on_cleanup(parent, 1).unwrap();
    rt.on_cleanup(parent, 2).unwrap();
    rt.on_cleanup(child, 31).unwrap();
    rt.on_cleanup(child, 32).unwrap();
    let sig = rt.create_signal(child, Value::Int(0)).unwrap();
    let tokens = rt.dispose_scope(parent).unwrap();
    // the parent's own callbacks in reverse registration order, then
    // the nested scope's, also reversed
    assert_eq!(tokens, vec![2, 1, 32, 31]);
    // re-reading a disposed node fails fast
    assert_eq!(rt.get(sig).unwrap_err(), RuntimeError::UseAfterDispose);
    assert_eq!(rt.set(sig, Value::Int(1)).unwrap_err(), RuntimeError::UseAfterDispose);
    // disposing again is a no-op
    assert_eq!(rt.dispose_scope(parent).unwrap(), Vec::<u64>::new());
}

#[test]
fn effect_cleanups_run_reversed_before_next_run() {
    let (mut rt, root) = Runtime::new();
    let s = rt.create_signal(root, Value::Int(0)).unwrap();
    let _e = rt.create_effect(root).unwrap();
    let mut seen: Vec<Vec<u64>> = Vec::new();
    let mut drain = |rt: &mut Runtime, seen: &mut Vec<Vec<u64>>| loop {
        match rt.next_effect().unwrap() {
            None => break,
            Some((eff, cbs)) => {
                seen.push(cbs);
                let run = as_int(read_with(rt, s, &mut |_, _| unreachable!()));
                rt.register_cleanup(run * 10 + 1).unwrap();
                rt.register_cleanup(run * 10 + 2).unwrap();
                rt.finish_effect(eff).unwrap();
            }
        }
    };
    drain(&mut rt, &mut seen);
    assert_eq!(seen, vec![Vec::<u64>::new()]);
    rt.set(s, Value::Int(1)).unwrap();
    drain(&mut rt, &mut seen);
    // run zero registered 1 then 2; they come back newest first
    assert_eq!(seen, vec![vec![], vec![2, 1]]);
}

#[test]
fn keyed_reorder_keeps_outputs() {
    let old_items = vec![1u64, 2, 3];
    let new_items = vec![3u64, 1, 2];
    let old_outputs = vec![101u64, 102, 103];
    let fresh_flags = keyed_fresh_positions(&old_items, &new_items);
    assert_eq!(fresh_flags, vec![0, 0, 0]);
    let fresh = vec![0u64, 0, 0];
    let (outs, dropped) = map_keyed(&old_items, &new_items, &old_outputs, &fresh);
    // identical tokens, relocated; nothing created, nothing disposed
    assert_eq!(outs, vec![103, 101, 102]);
    assert_eq!(dropped, Vec::<u64>::new());
}

#[test]
fn keyed_insert_and_remove() {
    let old_items = vec![1u64, 2, 3];
    let new_items = vec![2u64, 4];
    let old_outputs = vec![101u64, 102, 103];
    let fresh_flags = keyed_fresh_positions(&old_items, &new_items);
    assert_eq!(fresh_flags, vec![0, 1]);
    let fresh = vec![0u64, 204];
    let (outs, dropped) = map_keyed(&old_items, &new_items, &old_outputs, &fresh);
    assert_eq!(outs, vec![102, 204]);
    // keys 1 and 3 vanished: exactly two outputs disposed
    assert_eq!(dropped.len(), 2);
}

#[test]
fn indexed_reorder_changes_differing_positions() {
    // a reorder under positional identity: every position whose value
    // differs is re-mapped; here the middle value happens to stay
    let old_items = vec![1u64, 2, 3];
    let new_items = vec![3u64, 2, 1];
    let old_outputs = vec![101u64, 102, 103];
    let flags = indexed_fresh_positions(&old_items, &new_items);
    assert_eq!(flags, vec![1, 0, 1]);
    let fresh = vec![201u64, 0, 203];
    let (outs, dropped) = map_indexed(&old_items, &new_items, &old_outputs, &fresh);
    assert_eq!(outs, vec![201, 102, 203]);
    assert_eq!(dropped.len(), 2);
}

#[test]
fn indexed_tail_create_and_dispose() {
    let old_items = vec![1u64, 2, 3];
    let new_items = vec![1u64, 2];
    let old_outputs = vec![101u64, 102, 103];
    let fresh = vec![0u64, 0];
    let (outs, dropped) = map_indexed(&old_items, &new_items, &old_outputs, &fresh);
    assert_eq!(outs, vec![101, 102]);
    assert_eq!(dropped, vec![103]);
}

#[test]
fn self_write_is_a_cycle() {
    let (mut rt, root) = Runtime::new();
    let s = rt.create_signal(root, Value::Int(0)).unwrap();
    let _e = rt.create_effect(root).unwrap();
    let mut failed = false;
    loop {
        match rt.next_effect() {
            Err(err) => {
                assert_eq!(err, RuntimeError::CyclicDependency);
                failed = true;
                break;
            }
            Ok(None) => break,
            Ok(Some((eff, _))) => {
                let v = as_int(read_with(&mut rt, s, &mut |_, _| unreachable!()));
                // an effect writing a signal it reads re-triggers itself
                match rt.set(s, Value::Int(v + 1)) {
                    Err(err) => {
                        assert_eq!(err, RuntimeError::CyclicDependency);
                        failed = true;
                        break;
                    }
                    Ok(()) => {
                        rt.finish_effect(eff).unwrap();
                    }
                }
            }
        }
    }
    assert!(failed);
}

#[test]
fn singleton_slots() {
    let (mut rt, _root) = Runtime::new();
    rt.init_singleton(7).unwrap();
    assert_eq!(
        rt.init_singleton(7).unwrap_err(),
        RuntimeError::DoubleInitialization
    );
    rt.release_singleton(7).unwrap();
    rt.init_singleton(7).unwrap();
}

#[test]
fn raw_ident_prefix_stripping() {
    assert_eq!(strip_raw_ident_prefix("r#type".to_string()), "type");
    assert_eq!(strip_raw_ident_prefix("plain".to_string()), "plain");
    assert_eq!(strip_raw_ident_prefix("r#".to_string()), "");
    assert_eq!(strip_raw_ident_prefix("r".to_string()), "r");
    let base = AttributeBase::Html;
    assert!(base == AttributeBase::Html && base != AttributeBase::Svg);
}

#[test]
fn slot_reuse_detects_stale_handles() {
    let (mut rt, root) = Runtime::new();
    let scope = rt.create_child_scope(root).unwrap();
    let s1 = rt.create_signal(scope, Value::Int(1)).unwrap();
    rt.dispose_scope(scope).unwrap();
    // the slot is reclaimed under a new generation
    let s2 = rt.create_signal(root, Value::Int(2)).unwrap();
    assert_eq!(s1.slot, s2.slot);
    assert_ne!(s1.generation, s2.generation);
    assert_eq!(rt.get(s1).unwrap_err(), RuntimeError::UseAfterDispose);
    assert_eq!(as_int(rt.get_untracked(s2).unwrap()), 2);
}

#[test]
fn list_values_compare_structurally() {
    let (mut rt, root) = Runtime::new();
    let s = rt
        .create_signal(root, Value::List(vec![1, 2, 3]))
        .unwrap();
    let _e = rt.create_effect(root).unwrap();
    let mut runs = 0u32;
    let mut drain = |rt: &mut Runtime, runs: &mut u32| loop {
        match rt.next_effect().unwrap() {
            None => break,
            Some((eff, _)) => {
                read_with(rt, s, &mut |_, _| unreachable!());
                *runs += 1;
                rt.finish_effect(eff).unwrap();
            }
        }
    };
    drain(&mut rt, &mut runs);
    // an equal list is a no-op, a different one notifies
    rt.set(s, Value::List(vec![1, 2, 3])).unwrap();
    drain(&mut rt, &mut runs);
    assert_eq!(runs, 1);
    rt.set(s, Value::List(vec![1, 2])).unwrap();
    drain(&mut rt, &mut runs);
    assert_eq!(runs, 2);
}
