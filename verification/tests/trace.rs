use sortsynth::machine::{CMOVG, CMOVL, CMP, MOV};
use sortsynth::trace::{extract_program, Trace};

#[test]
fn programs_share_their_beginnings() {
    let mut trace = Trace::new();
    assert_eq!(trace.live_nodes(), 0);
    assert_eq!(extract_program(&trace, None), vec![]);
    let a = trace.extend(None, (MOV, 3, 0));
    let b = trace.extend(Some(a), (CMP, 0, 1));
    let c = trace.extend(Some(b), (CMOVG, 0, 1));
    let d = trace.extend(Some(b), (CMOVG, 1, 3));
    let e = trace.extend(None, (CMP, 1, 2));
    assert_eq!(trace.live_nodes(), 5);
    assert_eq!(extract_program(&trace, Some(a)), vec![(MOV, 3, 0)]);
    assert_eq!(extract_program(&trace, Some(b)), vec![(MOV, 3, 0), (CMP, 0, 1)]);
    assert_eq!(extract_program(&trace, Some(c)), vec![(MOV, 3, 0), (CMP, 0, 1), (CMOVG, 0, 1)]);
    assert_eq!(extract_program(&trace, Some(d)), vec![(MOV, 3, 0), (CMP, 0, 1), (CMOVG, 1, 3)]);
    assert_eq!(extract_program(&trace, Some(e)), vec![(CMP, 1, 2)]);
    // extending one history leaves the others as they are
    let f = trace.extend(Some(c), (MOV, 0, 0));
    assert_eq!(extract_program(&trace, Some(c)), vec![(MOV, 3, 0), (CMP, 0, 1), (CMOVG, 0, 1)]);
    assert_eq!(extract_program(&trace, Some(f)).len(), 4);
}

#[test]
fn a_node_stays_while_a_child_refers_to_it() {
    let mut trace = Trace::new();
    let a = trace.extend(None, (MOV, 3, 0));
    let b = trace.extend(Some(a), (CMP, 0, 1));
    let c = trace.extend(Some(b), (CMOVG, 0, 1));
    let d = trace.extend(Some(b), (CMOVL, 1, 3));
    // the handles of the inner nodes are given back: the nodes stay
    trace.release(a);
    trace.release(b);
    assert_eq!(trace.live_nodes(), 4);
    assert_eq!(extract_program(&trace, Some(c)), vec![(MOV, 3, 0), (CMP, 0, 1), (CMOVG, 0, 1)]);
    assert_eq!(extract_program(&trace, Some(d)), vec![(MOV, 3, 0), (CMP, 0, 1), (CMOVL, 1, 3)]);
    // one leaf goes: its history is still that of the other leaf
    trace.release(c);
    assert_eq!(trace.live_nodes(), 3);
    assert_eq!(extract_program(&trace, Some(d)), vec![(MOV, 3, 0), (CMP, 0, 1), (CMOVL, 1, 3)]);
    // the last leaf goes, and with it the whole history
    trace.release(d);
    assert_eq!(trace.live_nodes(), 0);
}

#[test]
fn released_slots_are_used_again() {
    let mut trace = Trace::new();
    let a = trace.extend(None, (MOV, 3, 0));
    let b = trace.extend(Some(a), (CMP, 0, 1));
    trace.release(b);
    assert_eq!(trace.live_nodes(), 1);
    let c = trace.extend(Some(a), (CMP, 1, 2));
    assert_eq!(c, b);
    assert_eq!(trace.live_nodes(), 2);
    assert_eq!(extract_program(&trace, Some(c)), vec![(MOV, 3, 0), (CMP, 1, 2)]);
    // a new root in the slot of an old child
    trace.release(c);
    let d = trace.extend(None, (CMOVG, 0, 1));
    assert_eq!(d, b);
    assert_eq!(extract_program(&trace, Some(d)), vec![(CMOVG, 0, 1)]);
    assert_eq!(extract_program(&trace, Some(a)), vec![(MOV, 3, 0)]);
    // many nodes come and go in two slots
    let mut last = d;
    for round in 0..1000usize {
        let next = trace.extend(Some(a), (MOV, round % 4, 0));
        trace.release(last);
        last = next;
        assert_eq!(trace.live_nodes(), 2);
        assert_eq!(extract_program(&trace, Some(last)), vec![(MOV, 3, 0), (MOV, round % 4, 0)]);
    }
}
