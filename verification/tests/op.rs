use crdt_richtext::op::DeleteOp;
use crdt_richtext::OpID;

#[test]
fn del_merge() {
    let a = DeleteOp {
        start: OpID::new(1, 1),
        len: 2,
    };
    let b = DeleteOp {
        start: OpID::new(1, 3),
        len: -1,
    };
    assert!(a.can_merge(&b))
}

#[test]
fn delete_ops_equal_in_either_direction() {
    let fwd = DeleteOp { start: OpID { client: 1, counter: 5 }, len: 3 };
    let back = DeleteOp { start: OpID { client: 1, counter: 7 }, len: -3 };
    assert!(fwd == back);
    assert!(back == fwd);
    assert!(fwd == fwd);
    let other = DeleteOp { start: OpID { client: 2, counter: 5 }, len: 3 };
    assert!(fwd != other);
    let shorter = DeleteOp { start: OpID { client: 1, counter: 5 }, len: 2 };
    assert!(fwd != shorter);
}
