use contender::registry::{AgentStore, Identity, SignerRegistry, SignerStore};

fn key_of(last: u8) -> [u8; 32] {
    let mut k = [0u8; 32];
    k[31] = last;
    k
}

const ADDRESS_OF_KEY_ONE: [u8; 20] = [
    0x7e, 0x5f, 0x45, 0x52, 0x09, 0x1a, 0x69, 0x12, 0x5d, 0x5d, 0xfc, 0xb7, 0xb8, 0xc2, 0x65, 0x90,
    0x29, 0x39, 0x5b, 0xdf,
];

#[test]
fn identity_from_key_derives_known_address() {
    let id = Identity::from_key(key_of(1)).expect("valid key");
    assert_eq!(id.key, key_of(1));
    assert_eq!(id.address, ADDRESS_OF_KEY_ONE);
}

#[test]
fn identity_from_zero_key_is_refused() {
    assert!(Identity::from_key([0u8; 32]).is_none());
}

#[test]
fn random_identities_carry_their_derived_address() {
    let store = SignerStore::new_random(3);
    assert_eq!(store.signers.len(), 3);
    for id in &store.signers {
        let again = Identity::from_key(id.key).expect("generated key is valid");
        assert_eq!(again.address, id.address);
    }
    assert_ne!(store.signers[0].key, store.signers[1].key);
}

#[test]
fn lookup_out_of_range_is_none() {
    let mut store = SignerStore::new();
    assert!(store.get_signer(0usize).is_none());
    store.add_signer(Identity::from_key(key_of(1)).unwrap());
    assert!(store.get_address(1usize).is_none());
    assert_eq!(store.get_address(0usize), Some(ADDRESS_OF_KEY_ONE));
}

#[test]
fn lookup_is_stable_until_removal() {
    let mut store = SignerStore::new();
    for i in 1..=3u8 {
        store.add_signer(Identity::from_key(key_of(i)).unwrap());
    }
    let first = store.get_address(1usize);
    assert_eq!(store.get_address(1usize), first);
    store.add_signer(Identity::from_key(key_of(4)).unwrap());
    assert_eq!(store.get_address(1usize), first);
    assert_eq!(store.get_signer(1usize).map(|s| s.key), Some(key_of(2)));
    store.remove_signer(0);
    assert_eq!(store.get_signer(0usize).map(|s| s.key), Some(key_of(2)));
    assert_eq!(store.get_address(0usize), first);
    assert_eq!(store.signers.len(), 3);
}

#[test]
fn agents_add_get_replace_remove() {
    let mut agents = AgentStore::new();
    assert!(!agents.has_agent("spammers"));
    assert!(agents.get_agent("spammers").is_none());

    agents.add_random_agent("spammers", 4);
    agents.add_random_agent("setup", 1);
    assert!(agents.has_agent("spammers"));
    assert_eq!(agents.get_agent("spammers").unwrap().signers.len(), 4);
    assert_eq!(agents.all_agents().len(), 2);
    assert_eq!(agents.all_agents()[0].name, "spammers");
    assert_eq!(agents.all_agents()[1].name, "setup");

    let mut pool = SignerStore::new();
    pool.add_signer(Identity::from_key(key_of(9)).unwrap());
    agents.add_agent("spammers", pool);
    assert_eq!(agents.all_agents().len(), 2);
    assert_eq!(agents.get_agent("spammers").unwrap().signers.len(), 1);
    assert_eq!(agents.get_agent("spammers").unwrap().signers[0].key, key_of(9));

    agents.remove_agent("spammers");
    assert!(!agents.has_agent("spammers"));
    assert!(agents.has_agent("setup"));
    assert_eq!(agents.all_agents().len(), 1);
    agents.remove_agent("absent");
    assert_eq!(agents.all_agents().len(), 1);
}

#[test]
fn default_store_is_empty() {
    let agents = AgentStore::default();
    assert!(agents.all_agents().is_empty());
}
