use ic_multisig_voting::storage::adopt_loaded;
use ic_multisig_voting::{Multisig, MultisigError, MultisigManager, MultisigStorage, NoStorage, Principal};

fn p(b: u8) -> Principal {
    Principal::from_slice(&[b])
}

struct Blob {
    saved: Option<Vec<u8>>,
    fail_saves: bool,
    saves: usize,
}

impl MultisigStorage<u32> for Blob {
    type Error = String;

    fn save(&mut self, multisig: &Multisig<u32>) -> Result<(), String> {
        if self.fail_saves {
            return Err("disk full".to_string());
        }
        self.saves += 1;
        self.saved = Some(multisig.to_bytes().map_err(|_| "encode".to_string())?);
        Ok(())
    }

    fn load(&mut self) -> Result<Option<Multisig<u32>>, String> {
        match &self.saved {
            Some(b) => Multisig::from_bytes(b).map(Some).map_err(|_| "decode".to_string()),
            None => Ok(None),
        }
    }
}

#[test]
fn in_memory_manager() {
    let mut m = MultisigManager::<u32, NoStorage>::in_memory(vec![p(1), p(2)], 2);
    assert_eq!(m.propose(p(1), 8), Ok(0));
    assert_eq!(m.propose(p(3), 8), Err(MultisigError::Authorization));
    assert_eq!(m.approve(p(2), 0), Ok(Some(8)));
    assert_eq!(m.approve(p(2), 5), Err(MultisigError::NotFound));
    assert_eq!(m.multisig().list_open().len(), 0);
    assert_eq!(m.save(), Ok(()));
    assert_eq!(m.load(), Ok(()));
    assert_eq!(m.multisig().next_proposal_id(), 1);
}

#[test]
fn manager_saves_after_each_change() {
    let store = Blob { saved: None, fail_saves: false, saves: 0 };
    let mut m = MultisigManager::with_storage(vec![p(1), p(2)], 2, store).unwrap();
    m.propose(p(1), 4).unwrap();
    m.approve(p(2), 0).unwrap();
    // a second manager over the saved bytes starts where the first stopped
    let bytes = m.multisig().to_bytes().unwrap();
    let store2 = Blob { saved: Some(bytes), fail_saves: false, saves: 0 };
    let m2 = MultisigManager::with_storage(vec![p(9)], 1, store2).unwrap();
    assert_eq!(m2.multisig().get_threshold(), 2);
    assert!(m2.multisig().get_proposal(0).unwrap().executed);
}

#[test]
fn failed_save_undoes_the_change() {
    let store = Blob { saved: None, fail_saves: true, saves: 0 };
    let mut m = MultisigManager::with_storage(vec![p(1)], 1, store).unwrap();
    assert_eq!(m.propose(p(1), 4), Err(MultisigError::Storage));
    assert_eq!(m.multisig().next_proposal_id(), 0);
    assert!(m.multisig().get_proposal(0).is_none());
    m.multisig_mut().propose(p(1), 4).unwrap();
    assert_eq!(m.approve(p(1), 0), Err(MultisigError::Storage));
    assert!(!m.multisig().get_proposal(0).unwrap().executed);
    assert_eq!(m.save(), Err("disk full".to_string()));
}

#[test]
fn manager_construction_errors() {
    let store = Blob { saved: None, fail_saves: false, saves: 0 };
    assert_eq!(
        MultisigManager::<u32, Blob>::with_storage(vec![p(1)], 2, store).err().map(|_| ()),
        Some(())
    );
    let store = Blob { saved: Some(vec![1, 2, 3]), fail_saves: false, saves: 0 };
    assert!(matches!(
        MultisigManager::<u32, Blob>::with_storage(vec![p(1)], 1, store),
        Err(MultisigError::Storage)
    ));
}

#[test]
fn no_storage_keeps_nothing() {
    let mut store = NoStorage;
    let ms = Multisig::<u32>::new(vec![p(1)], 1);
    assert_eq!(store.save(&ms), Ok(()));
    let loaded: Result<Option<Multisig<u32>>, ()> = store.load();
    assert!(matches!(loaded, Ok(None)));
}

#[test]
fn adopting_a_loaded_state() {
    let mut current = Multisig::<u32>::new(vec![p(1)], 1);
    adopt_loaded(&mut current, None);
    assert_eq!(current.get_owners(), &vec![p(1)]);
    adopt_loaded(&mut current, Some(Multisig::<u32>::new(vec![p(2), p(3)], 2)));
    assert_eq!(current.get_owners(), &vec![p(2), p(3)]);
    assert_eq!(current.get_threshold(), 2);
}

#[test]
fn manual_load_replaces_state() {
    let mut first = Multisig::<u32>::new(vec![p(1)], 1);
    first.propose(p(1), 3).unwrap();
    let store = Blob { saved: None, fail_saves: false, saves: 0 };
    let mut m = MultisigManager::with_storage(vec![p(5)], 1, store).unwrap();
    assert_eq!(m.load(), Ok(()));
    assert_eq!(m.multisig().get_owners(), &vec![p(5)]);
    m.propose(p(5), 1).unwrap();
    m.multisig_mut().add_owner(p(6)).unwrap();
    assert_eq!(m.load(), Ok(()));
    // the saved state predates the added owner
    assert_eq!(m.multisig().get_owners(), &vec![p(5)]);
    assert_eq!(m.multisig().next_proposal_id(), 1);
}
