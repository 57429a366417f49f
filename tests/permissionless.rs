use tdn_permission::{GroupId, PeerAddr, PermissionlessGroup};

#[test]
fn open_group_admits_everyone() {
    let g = PermissionlessGroup::new(GroupId { id: [3; 32] });
    assert_eq!(g.id().id, [3; 32]);
    assert!(g.guard(&PeerAddr { id: [9; 32] }));
    let v = g.join(PeerAddr { id: [9; 32] });
    assert!(v.accepted);
    assert!(!v.need_retry);
    assert!(v.data.is_empty());
    assert_eq!(v.peer.id, [9; 32]);
}
