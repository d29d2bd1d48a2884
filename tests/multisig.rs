use ic_multisig_voting::multisig::ProposalId;
use ic_multisig_voting::{Multisig, MultisigError, Principal};

fn anonymous() -> Principal {
    Principal::from_slice(candid::Principal::anonymous().as_slice())
}

fn from_slice(bytes: &[u8]) -> Principal {
    Principal::from_slice(candid::Principal::from_slice(bytes).as_slice())
}

#[test]
fn test_basic_workflow() {
    let owners = vec![anonymous()];
    let mut ms = Multisig::<u32>::new(owners, 1);

    let id = ms.propose(anonymous(), 42).unwrap();
    let result = ms.approve(anonymous(), id).unwrap();

    assert_eq!(result, Some(42));
}

#[test]
fn test_serialization() {
    let owners = vec![anonymous()];
    let mut ms = Multisig::<u32>::new(owners, 1);

    let id = ms.propose(anonymous(), 42).unwrap();

    let bytes = ms.to_bytes().unwrap();
    let mut restored_ms = Multisig::<u32>::from_bytes(&bytes).unwrap();

    let result = restored_ms.approve(anonymous(), id).unwrap();
    assert_eq!(result, Some(42));
}

#[test]
fn test_round_trip_serialization() {
    let owner1 = anonymous();
    let owner2 = from_slice(&[1, 2, 3, 4]);
    let owner3 = from_slice(&[5, 6, 7, 8]);
    let owners = vec![owner1.clone(), owner2.clone(), owner3.clone()];

    let mut ms = Multisig::<String>::new(owners.clone(), 3);

    let id1 = ms.propose(owner1.clone(), "First proposal".to_string()).unwrap();
    let id2 = ms.propose(owner2.clone(), "Second proposal".to_string()).unwrap();

    let approve_result = ms.approve(owner2.clone(), id1).unwrap();
    assert_eq!(approve_result, None);

    let prop1_before = ms.get_proposal(id1).unwrap();
    assert_eq!(prop1_before.approvals.len(), 2);
    assert!(!prop1_before.executed);

    let bytes = ms.to_bytes().unwrap();
    let restored_ms = Multisig::<String>::from_bytes(&bytes).unwrap();

    assert_eq!(restored_ms.get_owners(), &owners);
    assert_eq!(restored_ms.get_threshold(), 3);
    assert_eq!(restored_ms.list_open().len(), 2);

    let prop1_after = restored_ms.get_proposal(id1).unwrap();
    assert_eq!(prop1_after.approvals.len(), 2);
    assert!(!prop1_after.executed);

    let prop2_after = restored_ms.get_proposal(id2).unwrap();
    assert_eq!(prop2_after.approvals.len(), 1);
    assert!(!prop2_after.executed);
}

#[test]
fn test_serialization_with_executed_proposal() {
    let owner = anonymous();
    let mut ms = Multisig::<u32>::new(vec![owner.clone()], 1);

    let id = ms.propose(owner.clone(), 42).unwrap();
    let result = ms.approve(owner.clone(), id).unwrap();
    assert_eq!(result, Some(42));

    let bytes = ms.to_bytes().unwrap();
    let restored_ms = Multisig::<u32>::from_bytes(&bytes).unwrap();

    let prop = restored_ms.get_proposal(id).unwrap();
    assert!(prop.executed);
    assert_eq!(prop.payload, 42);
    assert_eq!(restored_ms.list_open().len(), 0);
}

fn abc() -> (Principal, Principal, Principal) {
    (from_slice(&[0xa]), from_slice(&[0xb]), from_slice(&[0xc]))
}

#[test]
fn single_owner_scenario() {
    let (a, _, _) = abc();
    let mut ms = Multisig::<String>::new(vec![a.clone()], 1);
    let id = ms.propose(a.clone(), "x".to_string()).unwrap();
    assert_eq!(id, 0);
    let p = ms.get_proposal(0).unwrap();
    assert_eq!(p.approvals, vec![a.clone()]);
    assert!(!p.executed);
    assert_eq!(ms.approve(a.clone(), 0), Ok(Some("x".to_string())));
    assert!(ms.get_proposal(0).unwrap().executed);
    assert_eq!(ms.approve(a.clone(), 0), Ok(None));
}

#[test]
fn three_owner_scenario() {
    let (a, b, c) = abc();
    let mut ms = Multisig::<String>::new(vec![a.clone(), b.clone(), c.clone()], 3);
    assert_eq!(ms.propose(a.clone(), "y".to_string()), Ok(0));
    assert_eq!(ms.get_proposal(0).unwrap().approvals, vec![a.clone()]);
    assert_eq!(ms.approve(b.clone(), 0), Ok(None));
    let p = ms.get_proposal(0).unwrap();
    assert_eq!(p.approvals, vec![a.clone(), b.clone()]);
    assert!(!p.executed);
    assert_eq!(ms.approve(c.clone(), 0), Ok(Some("y".to_string())));
    let p = ms.get_proposal(0).unwrap();
    assert_eq!(p.approvals, vec![a.clone(), b.clone(), c.clone()]);
    assert!(p.executed);
}

#[test]
fn non_owner_is_refused() {
    let (a, b, _) = abc();
    let mut ms = Multisig::<u32>::new(vec![a.clone()], 1);
    assert_eq!(ms.propose(b.clone(), 1), Err(MultisigError::Authorization));
    assert_eq!(ms.approve(b.clone(), 0), Err(MultisigError::Authorization));
    ms.propose(a.clone(), 1).unwrap();
    assert_eq!(ms.approve(b.clone(), 0), Err(MultisigError::Authorization));
    assert_eq!(ms.next_proposal_id(), 1);
}

#[test]
fn ids_increase_from_zero() {
    let (a, b, _) = abc();
    let mut ms = Multisig::<u32>::new(vec![a.clone(), b.clone()], 2);
    let ids: Vec<ProposalId> = (0..5u32)
        .map(|i| ms.propose(if i % 2 == 0 { a.clone() } else { b.clone() }, i).unwrap())
        .collect();
    assert_eq!(ids, vec![0, 1, 2, 3, 4]);
}

#[test]
fn propose_never_executes() {
    let (a, _, _) = abc();
    let mut ms = Multisig::<u32>::new(vec![a.clone()], 1);
    let id = ms.propose(a.clone(), 7).unwrap();
    let p = ms.get_proposal(id).unwrap();
    assert_eq!(p.approvals, vec![a.clone()]);
    assert!(!p.executed);
    assert_eq!(ms.list_open().len(), 1);
}

#[test]
fn unknown_id_and_repeated_approval() {
    let (a, b, _) = abc();
    let mut ms = Multisig::<u32>::new(vec![a.clone(), b.clone()], 2);
    assert_eq!(ms.approve(a.clone(), 9), Err(MultisigError::NotFound));
    let id = ms.propose(a.clone(), 5).unwrap();
    assert_eq!(ms.approve(a.clone(), id), Ok(None));
    assert_eq!(ms.get_proposal(id).unwrap().approvals.len(), 1);
    assert_eq!(ms.approve(b.clone(), id), Ok(Some(5)));
    for _ in 0..3 {
        assert_eq!(ms.approve(a.clone(), id), Ok(None));
        assert_eq!(ms.approve(b.clone(), id), Ok(None));
    }
    assert_eq!(ms.get_proposal(id).unwrap().approvals.len(), 2);
}

#[test]
fn open_list_skips_executed() {
    let (a, b, _) = abc();
    let mut ms = Multisig::<u32>::new(vec![a.clone(), b.clone()], 2);
    ms.propose(a.clone(), 10).unwrap();
    ms.propose(a.clone(), 11).unwrap();
    ms.propose(a.clone(), 12).unwrap();
    assert_eq!(ms.approve(b.clone(), 1), Ok(Some(11)));
    let open: Vec<u64> = ms.list_open().iter().map(|p| p.id).collect();
    assert_eq!(open, vec![0, 2]);
    assert!(ms.list_open().iter().all(|p| !p.executed));
}

#[test]
fn owner_changes() {
    let (a, b, c) = abc();
    let mut ms = Multisig::<u32>::new(vec![a.clone(), b.clone(), c.clone()], 2);
    assert_eq!(ms.add_owner(a.clone()), Err(MultisigError::Validation));
    assert_eq!(ms.remove_owner(from_slice(&[9])), Err(MultisigError::Validation));
    // three owners, threshold two: removing one would leave two, not more than the threshold
    assert_eq!(ms.remove_owner(c.clone()), Err(MultisigError::Validation));
    assert_eq!(ms.get_owners().len(), 3);
    let d = from_slice(&[0xd]);
    assert_eq!(ms.add_owner(d.clone()), Ok(()));
    assert_eq!(ms.remove_owner(b.clone()), Ok(()));
    assert_eq!(ms.get_owners(), &vec![a.clone(), c.clone(), d.clone()]);
    assert_eq!(ms.set_threshold(0), Err(MultisigError::Validation));
    assert_eq!(ms.set_threshold(4), Err(MultisigError::Validation));
    assert_eq!(ms.get_threshold(), 2);
    assert_eq!(ms.set_threshold(3), Ok(()));
    assert_eq!(ms.get_threshold(), 3);
}

#[test]
fn construction_rules() {
    let (a, b, _) = abc();
    assert_eq!(Multisig::<u32>::try_new(vec![a.clone(), b.clone()], 0).err(), Some(MultisigError::Validation));
    assert_eq!(Multisig::<u32>::try_new(vec![a.clone(), b.clone()], 3).err(), Some(MultisigError::Validation));
    // a repeated owner counts once
    assert_eq!(Multisig::<u32>::try_new(vec![a.clone(), a.clone()], 2).err(), Some(MultisigError::Validation));
    let ms = Multisig::<u32>::try_new(vec![a.clone(), a.clone(), b.clone()], 2).unwrap();
    assert_eq!(ms.get_owners(), &vec![a.clone(), b.clone()]);
    assert_eq!(ms.next_proposal_id(), 0);
}

#[test]
fn exact_encoding() {
    let ms = Multisig::<u32>::new(vec![anonymous()], 1);
    let bytes = ms.to_bytes().unwrap();
    let expected: Vec<u8> = vec![
        1, 0, 0, 0, 0, 0, 0, 0, // one owner
        1, 4, // the anonymous principal
        1, // threshold
        0, 0, 0, 0, 0, 0, 0, 0, // next id
        0, 0, 0, 0, 0, 0, 0, 0, // no proposals
    ];
    assert_eq!(bytes, expected);
}

#[test]
fn round_trip_keeps_every_field() {
    let (a, b, c) = abc();
    let mut ms = Multisig::<String>::new(vec![a.clone(), b.clone(), c.clone()], 2);
    ms.propose(a.clone(), "héllo ✓".to_string()).unwrap();
    ms.propose(b.clone(), String::new()).unwrap();
    ms.approve(c.clone(), 0).unwrap();
    let restored = Multisig::<String>::from_bytes(&ms.to_bytes().unwrap()).unwrap();
    assert_eq!(restored.get_owners(), ms.get_owners());
    assert_eq!(restored.get_threshold(), 2);
    assert_eq!(restored.next_proposal_id(), 2);
    for id in 0..2u64 {
        let x = ms.get_proposal(id).unwrap();
        let y = restored.get_proposal(id).unwrap();
        assert_eq!(x.id, y.id);
        assert_eq!(x.payload, y.payload);
        assert_eq!(x.approvals, y.approvals);
        assert_eq!(x.executed, y.executed);
    }
    assert_eq!(restored.get_proposal(0).unwrap().payload, "héllo ✓");
    assert_eq!(restored.to_bytes().unwrap(), ms.to_bytes().unwrap());
}

#[test]
fn malformed_bytes_are_refused() {
    let (a, _, _) = abc();
    let mut ms = Multisig::<String>::new(vec![a.clone()], 1);
    ms.propose(a.clone(), "payload".to_string()).unwrap();
    let bytes = ms.to_bytes().unwrap();
    for n in 0..bytes.len() {
        assert_eq!(Multisig::<String>::from_bytes(&bytes[..n]).err(), Some(MultisigError::Decode));
    }
    let mut longer = bytes.clone();
    longer.push(0);
    assert_eq!(Multisig::<String>::from_bytes(&longer).err(), Some(MultisigError::Decode));
    // the payload bytes are not UTF-8
    let mut bad_text = bytes.clone();
    let at = bytes.len() - 1 - 10 - "payload".len();
    bad_text[at] = 0xff;
    assert_eq!(Multisig::<String>::from_bytes(&bad_text).err(), Some(MultisigError::Decode));
    // a threshold of zero breaks the invariants
    let empty = Multisig::<u32>::new(vec![anonymous()], 1);
    let mut zero = empty.to_bytes().unwrap();
    zero[10] = 0;
    assert_eq!(Multisig::<u32>::from_bytes(&zero).err(), Some(MultisigError::Decode));
}

#[test]
fn stale_approval_still_counts() {
    let (a, b, c) = abc();
    let d = from_slice(&[0xd]);
    let mut ms = Multisig::<u32>::new(vec![a.clone(), b.clone(), c.clone(), d.clone()], 2);
    let id = ms.propose(d.clone(), 3).unwrap();
    assert_eq!(ms.remove_owner(d.clone()), Ok(()));
    assert_eq!(ms.approve(a.clone(), id), Ok(Some(3)));
}

#[test]
fn owners_and_approvals_in_principal_order() {
    let one = from_slice(&[1]);
    let two = from_slice(&[2]);
    let long_low = from_slice(&[0, 0]);
    let mut ms = Multisig::<u32>::new(vec![two.clone()], 1);
    assert_eq!(ms.add_owner(one.clone()), Ok(()));
    assert_eq!(ms.get_owners(), &vec![one.clone(), two.clone()]);
    // shorter identifiers come first, whatever their bytes
    assert_eq!(ms.add_owner(long_low.clone()), Ok(()));
    assert_eq!(ms.get_owners(), &vec![one.clone(), two.clone(), long_low.clone()]);

    let ms2 = Multisig::<u32>::new(vec![long_low.clone(), two.clone(), one.clone(), two.clone()], 2);
    assert_eq!(ms2.get_owners(), &vec![one.clone(), two.clone(), long_low.clone()]);

    let mut ms3 = Multisig::<u32>::new(vec![one.clone(), two.clone(), long_low.clone()], 3);
    let id = ms3.propose(long_low.clone(), 1).unwrap();
    assert_eq!(ms3.approve(two.clone(), id), Ok(None));
    assert_eq!(ms3.get_proposal(id).unwrap().approvals, vec![two.clone(), long_low.clone()]);
    assert_eq!(ms3.approve(one.clone(), id), Ok(Some(1)));
    assert_eq!(ms3.get_proposal(id).unwrap().approvals, vec![one.clone(), two.clone(), long_low.clone()]);
}

#[test]
fn unsorted_owner_bytes_are_refused() {
    let ms = Multisig::<u32>::new(vec![from_slice(&[1]), from_slice(&[2])], 1);
    let mut bytes = ms.to_bytes().unwrap();
    // swap the two one-byte principals: [len 1, 1], [len 1, 2] -> 2 then 1
    bytes[9] = 2;
    bytes[11] = 1;
    assert_eq!(Multisig::<u32>::from_bytes(&bytes).err(), Some(MultisigError::Decode));
}
