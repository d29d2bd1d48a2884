use ic_multisig_voting::admin::{execute_action, multisig_info, with_config, ActionPayload, Config};
use ic_multisig_voting::{Multisig, MultisigError, Principal};

fn p(b: u8) -> Principal {
    Principal::from_slice(&[b, b])
}

fn config(fee: u64) -> Config {
    Config {
        max_payload_size: 1024,
        allowed_origins: vec!["https://ic0.app".to_string(), "https://example.org".to_string()],
        admin_fee: fee,
    }
}

#[test]
fn actions_survive_encoding() {
    let mut ms = Multisig::<ActionPayload>::new(vec![p(1), p(2)], 2);
    ms.propose(p(1), ActionPayload::SetConfig(config(7))).unwrap();
    ms.propose(p(1), ActionPayload::AddOwner(p(3))).unwrap();
    ms.propose(p(2), ActionPayload::RemoveOwner(p(2))).unwrap();
    ms.propose(p(2), ActionPayload::ChangeThreshold(1)).unwrap();
    let restored = Multisig::<ActionPayload>::from_bytes(&ms.to_bytes().unwrap()).unwrap();
    match &restored.get_proposal(0).unwrap().payload {
        ActionPayload::SetConfig(c) => {
            assert_eq!(c.max_payload_size, 1024);
            assert_eq!(c.allowed_origins, config(7).allowed_origins);
            assert_eq!(c.admin_fee, 7);
        }
        other => panic!("unexpected {:?}", other),
    }
    assert!(matches!(&restored.get_proposal(1).unwrap().payload, ActionPayload::AddOwner(x) if *x == p(3)));
    assert!(matches!(&restored.get_proposal(2).unwrap().payload, ActionPayload::RemoveOwner(x) if *x == p(2)));
    assert!(matches!(restored.get_proposal(3).unwrap().payload, ActionPayload::ChangeThreshold(1)));
}

#[test]
fn approved_actions_take_effect() {
    let mut ms = Multisig::<ActionPayload>::new(vec![p(1), p(2)], 2);
    let mut cfg = config(0);
    let id = ms.propose(p(1), ActionPayload::SetConfig(config(99))).unwrap();
    let action = ms.approve(p(2), id).unwrap().unwrap();
    assert_eq!(execute_action(&mut ms, &mut cfg, action), Ok(()));
    assert_eq!(cfg.admin_fee, 99);

    assert_eq!(execute_action(&mut ms, &mut cfg, ActionPayload::AddOwner(p(3))), Ok(()));
    assert_eq!(ms.get_owners().len(), 3);
    assert_eq!(execute_action(&mut ms, &mut cfg, ActionPayload::AddOwner(p(3))), Err(MultisigError::Validation));
    assert_eq!(execute_action(&mut ms, &mut cfg, ActionPayload::ChangeThreshold(4)), Err(MultisigError::Validation));
    assert_eq!(execute_action(&mut ms, &mut cfg, ActionPayload::ChangeThreshold(1)), Ok(()));
    assert_eq!(execute_action(&mut ms, &mut cfg, ActionPayload::RemoveOwner(p(1))), Ok(()));
    assert_eq!(ms.get_owners(), &vec![p(2), p(3)]);
    assert_eq!(ms.get_threshold(), 1);

    let info = multisig_info(&ms);
    assert_eq!(info.owners, vec![p(2), p(3)]);
    assert_eq!(info.threshold, 1);
    assert_eq!(info.open_proposal_count, 0);
}

#[test]
fn config_access() {
    let mut cfg = config(5);
    let fee = with_config(&mut cfg, |c| {
        c.admin_fee += 1;
        c.admin_fee
    });
    assert_eq!(fee, 6);
    assert_eq!(cfg.admin_fee, 6);
}

#[test]
fn info_lists_owners_in_principal_order() {
    let mut ms = Multisig::<ActionPayload>::new(vec![p(9)], 1);
    ms.add_owner(p(3)).unwrap();
    let info = multisig_info(&ms);
    assert_eq!(info.owners, vec![p(3), p(9)]);
}
