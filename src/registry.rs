//! Identity registry: named agents, each owning an ordered pool of identities.
use alloy::primitives::B256;
use alloy::signers::local::PrivateKeySigner;
use vstd::prelude::*;

verus! {

/// The address that the signing library derives from a 32-byte secret key,
/// or `None` where the bytes are not a valid secp256k1 secret scalar.
pub uninterp spec fn key_address(key: Seq<u8>) -> Option<Seq<u8>>;

/// Relies on `LocalSigner::from_bytes` (which rejects an invalid scalar) and
/// `LocalSigner::address`: the address depends on the key bytes alone.
#[verifier::external_body]
fn derive_address(key: &[u8; 32]) -> (r: Option<[u8; 20]>)
    ensures
        match r {
            Some(a) => key_address(key@) == Some(a@),
            None => key_address(key@).is_none(),
        },
{
    PrivateKeySigner::from_bytes(&B256::new(*key)).ok().map(|s| s.address().into_array())
}

/// Relies on `LocalSigner::random`, `LocalSigner::to_bytes` and `LocalSigner::address`:
/// a fresh key drawn from the thread's generator, with the address derived from it.
#[verifier::external_body]
fn random_keypair() -> (r: ([u8; 32], [u8; 20]))
    ensures
        key_address(r.0@) == Some(r.1@),
{
    let s = PrivateKeySigner::random();
    (s.to_bytes().0, s.address().into_array())
}

/// A signing identity: a secret key and the network address derived from it.
#[derive(Clone, Copy, Debug, PartialEq, Eq)]
pub struct Identity {
    pub key: [u8; 32],
    pub address: [u8; 20],
}

impl Identity {
    /// The address stored is the one the signing library derives from the key.
    pub open spec fn well_formed(&self) -> bool {
        key_address(self.key@) == Some(self.address@)
    }

    /// Builds an identity from secret key bytes; `None` where the bytes are not a valid key.
    pub fn from_key(key: [u8; 32]) -> (r: Option<Identity>)
        ensures
            r.is_some() == key_address(key@).is_some(),
            r matches Some(id) ==> id.key == key && id.well_formed(),
    {
        match derive_address(&key) {
            Some(address) => Some(Identity { key, address }),
            None => None,
        }
    }
}

/// Lookup of identities by an ordered index.
pub trait SignerRegistry<Index: Ord> {
    /// The identity that `idx` designates, if any.
    spec fn identity_at(&self, idx: Index) -> Option<Identity>;

    fn get_signer(&self, idx: Index) -> (r: Option<&Identity>)
        ensures
            match r {
                Some(id) => self.identity_at(idx) == Some(*id),
                None => self.identity_at(idx).is_none(),
            },
    ;

    fn get_address(&self, idx: Index) -> (r: Option<[u8; 20]>)
        ensures
            match r {
                Some(a) => self.identity_at(idx) matches Some(id) && id.address == a,
                None => self.identity_at(idx).is_none(),
            },
    ;
}

/// Lookup of agent addresses by an ordered index.
pub trait AgentRegistry<Index: Ord> {
    fn get_agent(&self, idx: Index) -> Option<&[u8; 20]>;
}

/// An ordered pool of identities; indices follow insertion order.
pub struct SignerStore {
    pub signers: Vec<Identity>,
}

/// The identity at position `i` of a pool, or `None` out of range.
pub open spec fn identity_in(pool: Seq<Identity>, i: int) -> Option<Identity> {
    if 0 <= i < pool.len() {
        Some(pool[i])
    } else {
        None
    }
}

impl SignerRegistry<usize> for SignerStore {
    open spec fn identity_at(&self, idx: usize) -> Option<Identity> {
        identity_in(self.signers@, idx as int)
    }

    fn get_signer(&self, idx: usize) -> (r: Option<&Identity>) {
        if idx < self.signers.len() {
            Some(&self.signers[idx])
        } else {
            None
        }
    }

    fn get_address(&self, idx: usize) -> (r: Option<[u8; 20]>) {
        if idx < self.signers.len() {
            Some(self.signers[idx].address)
        } else {
            None
        }
    }
}

impl SignerStore {
    pub fn new() -> (r: SignerStore)
        ensures
            r.signers@ == Seq::<Identity>::empty(),
    {
        SignerStore { signers: Vec::new() }
    }

    /// A pool of `num_signers` freshly generated identities.
    pub fn new_random(num_signers: usize) -> (r: SignerStore)
        ensures
            r.signers@.len() == num_signers,
            forall|i: int| 0 <= i < num_signers ==> (#[trigger] r.signers@[i]).well_formed(),
    {
        let mut signers: Vec<Identity> = Vec::new();
        let mut n: usize = 0;
        while n < num_signers
            invariant
                n <= num_signers,
                signers@.len() == n,
                forall|i: int| 0 <= i < n ==> (#[trigger] signers@[i]).well_formed(),
            decreases num_signers - n,
        {
            let (key, address) = random_keypair();
            signers.push(Identity { key, address });
            n = n + 1;
        }
        SignerStore { signers }
    }

    pub fn add_signer(&mut self, signer: Identity)
        requires
            signer.well_formed(),
        ensures
            final(self).signers@ == old(self).signers@.push(signer),
    {
        self.signers.push(signer);
    }

    /// Removes the identity at `idx`; later identities move down by one.
    pub fn remove_signer(&mut self, idx: usize)
        requires
            idx < old(self).signers@.len(),
        ensures
            final(self).signers@ == old(self).signers@.remove(idx as int),
    {
        self.signers.remove(idx);
    }
}

/// Adding an identity to a pool leaves every earlier index designating the same identity.
pub proof fn lemma_lookup_stable_under_add(before: Seq<Identity>, id: Identity, i: int)
    requires
        0 <= i < before.len(),
    ensures
        identity_in(before.push(id), i) == identity_in(before, i),
{
}

/// Removing the identity at `k` leaves every index below `k` designating the same identity,
/// and moves each later one down by one.
pub proof fn lemma_lookup_after_remove(before: Seq<Identity>, k: int, i: int)
    requires
        0 <= k < before.len(),
        0 <= i < before.len() - 1,
    ensures
        i < k ==> identity_in(before.remove(k), i) == identity_in(before, i),
        i >= k ==> identity_in(before.remove(k), i) == identity_in(before, i + 1),
{
}

/// A named pool of identities.
pub struct Agent {
    pub name: String,
    pub signers: SignerStore,
}

/// The registry: agents under unique names.
pub struct AgentStore {
    agents: Vec<Agent>,
}

impl AgentStore {
    /// The agents in the order they were first added.
    pub closed spec fn entries(&self) -> Seq<Agent> {
        self.agents@
    }

    /// Agent names are unique.
    pub open spec fn well_formed(&self) -> bool {
        forall|i: int, j: int|
            0 <= i < self.entries().len() && 0 <= j < self.entries().len() && i != j
                ==> (#[trigger] self.entries()[i]).name@ != (#[trigger] self.entries()[j]).name@
    }

    pub open spec fn has_name(&self, name: Seq<char>) -> bool {
        exists|i: int| 0 <= i < self.entries().len() && (#[trigger] self.entries()[i]).name@ == name
    }

    /// The identities of the agent called `name`, if there is one.
    pub open spec fn agent_named(&self, name: Seq<char>) -> Option<Seq<Identity>> {
        if self.has_name(name) {
            let i = choose|i: int|
                0 <= i < self.entries().len() && (#[trigger] self.entries()[i]).name@ == name;
            Some(self.entries()[i].signers.signers@)
        } else {
            None
        }
    }

    proof fn lemma_named_at(&self, name: Seq<char>, k: int)
        requires
            self.well_formed(),
            0 <= k < self.entries().len(),
            self.entries()[k].name@ == name,
        ensures
            self.agent_named(name) == Some(self.entries()[k].signers.signers@),
    {
        assert(self.has_name(name));
    }

    pub fn new() -> (r: AgentStore)
        ensures
            r.well_formed(),
            forall|n: Seq<char>| (#[trigger] r.agent_named(n)).is_none(),
    {
        AgentStore { agents: Vec::new() }
    }

    fn find(&self, name: &String) -> (r: Option<usize>)
        ensures
            match r {
                Some(k) => k < self.entries().len() && self.entries()[k as int].name@ == name@,
                None => !self.has_name(name@),
            },
    {
        let mut k: usize = 0;
        while k < self.agents.len()
            invariant
                k <= self.agents@.len(),
                forall|i: int| 0 <= i < k ==> (#[trigger] self.agents@[i]).name@ != name@,
            decreases self.agents@.len() - k,
        {
            if self.agents[k].name == *name {
                return Some(k);
            }
            k = k + 1;
        }
        None
    }

    /// Registers `signers` under `name`, replacing the pool of an agent already so named.
    pub fn add_agent(&mut self, name: &str, signers: SignerStore)
        requires
            old(self).well_formed(),
        ensures
            final(self).well_formed(),
            final(self).agent_named(name@) == Some(signers.signers@),
            forall|n: Seq<char>| n != name@ ==> #[trigger] final(self).agent_named(n) == old(self).agent_named(n),
            old(self).has_name(name@) ==> exists|k: int|
                0 <= k < old(self).entries().len() && (#[trigger] old(self).entries()[k]).name@ == name@
                && final(self).entries() == old(self).entries().update(k, final(self).entries()[k])
                && final(self).entries()[k].name@ == name@ && final(self).entries()[k].signers == signers,
            !old(self).has_name(name@) ==> final(self).entries().len() == old(self).entries().len() + 1
                && final(self).entries().drop_last() == old(self).entries()
                && final(self).entries().last().name@ == name@ && final(self).entries().last().signers == signers,
    {
        let key = name.to_owned();
        match self.find(&key) {
            Some(k) => {
                let ghost before = self.agents@;
                let agent = Agent { name: key, signers };
                self.agents.set(k, agent);
                assert(self.entries() == before.update(k as int, self.agents@[k as int]));
                assert forall|n: Seq<char>| n != name@ implies #[trigger] self.agent_named(n) == old(self).agent_named(n) by {
                    if old(self).has_name(n) {
                        let i = choose|i: int| 0 <= i < before.len() && (#[trigger] before[i]).name@ == n;
                        old(self).lemma_named_at(n, i);
                        self.lemma_named_at(n, i);
                    } else {
                        if self.has_name(n) {
                            let i = choose|i: int| 0 <= i < self.entries().len() && (#[trigger] self.entries()[i]).name@ == n;
                            assert(before[i].name@ == n);
                        }
                    }
                }
                proof { self.lemma_named_at(name@, k as int); }
            }
            None => {
                let ghost before = self.agents@;
                self.agents.push(Agent { name: key, signers });
                assert(self.entries() == before.push(self.agents@[before.len() as int]));
                assert(self.entries()[before.len() as int].name@ == name@);
                assert(!old(self).has_name(name@));
                assert(old(self).entries() == before);
                assert forall|i: int, j: int|
                    0 <= i < self.entries().len() && 0 <= j < self.entries().len() && i != j
                    implies (#[trigger] self.entries()[i]).name@ != (#[trigger] self.entries()[j]).name@ by {
                    if i < before.len() && j < before.len() {
                        assert(before[i] == self.entries()[i] && before[j] == self.entries()[j]);
                    } else if i < before.len() {
                        assert(old(self).entries()[i] == self.entries()[i]);
                    } else {
                        assert(old(self).entries()[j] == self.entries()[j]);
                    }
                }
                assert forall|n: Seq<char>| n != name@ implies #[trigger] self.agent_named(n) == old(self).agent_named(n) by {
                    if old(self).has_name(n) {
                        let i = choose|i: int| 0 <= i < before.len() && (#[trigger] before[i]).name@ == n;
                        old(self).lemma_named_at(n, i);
                        assert(self.entries()[i] == before[i]);
                        self.lemma_named_at(n, i);
                    } else {
                        if self.has_name(n) {
                            let i = choose|i: int| 0 <= i < self.entries().len() && (#[trigger] self.entries()[i]).name@ == n;
                            assert(before[i].name@ == n);
                        }
                    }
                }
                proof { self.lemma_named_at(name@, before.len() as int); }
            }
        }
    }

    /// Registers a pool of `num_signers` freshly generated identities under `name`.
    pub fn add_random_agent(&mut self, name: &str, num_signers: usize)
        requires
            old(self).well_formed(),
        ensures
            final(self).well_formed(),
            final(self).agent_named(name@) matches Some(pool) && pool.len() == num_signers
                && forall|i: int| 0 <= i < num_signers ==> (#[trigger] pool[i]).well_formed(),
            forall|n: Seq<char>| n != name@ ==> #[trigger] final(self).agent_named(n) == old(self).agent_named(n),
    {
        let signers = SignerStore::new_random(num_signers);
        self.add_agent(name, signers);
    }

    pub fn get_agent(&self, name: &str) -> (r: Option<&SignerStore>)
        requires
            self.well_formed(),
        ensures
            match r {
                Some(s) => self.agent_named(name@) == Some(s.signers@),
                None => self.agent_named(name@).is_none(),
            },
    {
        let key = name.to_owned();
        match self.find(&key) {
            Some(k) => {
                proof {
                    self.lemma_named_at(name@, k as int);
                }
                Some(&self.agents[k].signers)
            },
            None => None,
        }
    }

    /// Every agent, in the order of first registration.
    pub fn all_agents(&self) -> (r: &[Agent])
        ensures
            r@ == self.entries(),
    {
        self.agents.as_slice()
    }

    pub fn has_agent(&self, name: &str) -> (r: bool)
        ensures
            r == self.agent_named(name@).is_some(),
    {
        let key = name.to_owned();
        self.find(&key).is_some()
    }

    /// Removes the agent called `name`, if there is one.
    pub fn remove_agent(&mut self, name: &str)
        requires
            old(self).well_formed(),
        ensures
            final(self).well_formed(),
            final(self).agent_named(name@).is_none(),
            forall|n: Seq<char>| n != name@ ==> #[trigger] final(self).agent_named(n) == old(self).agent_named(n),
            !old(self).has_name(name@) ==> final(self).entries() == old(self).entries(),
            old(self).has_name(name@) ==> exists|k: int|
                0 <= k < old(self).entries().len() && (#[trigger] old(self).entries()[k]).name@ == name@
                && final(self).entries() == old(self).entries().remove(k),
    {
        let key = name.to_owned();
        match self.find(&key) {
            Some(k) => {
                let ghost before = self.agents@;
                self.agents.remove(k);
                assert(self.entries() == before.remove(k as int));
                assert forall|i: int, j: int|
                    0 <= i < self.entries().len() && 0 <= j < self.entries().len() && i != j
                    implies (#[trigger] self.entries()[i]).name@ != (#[trigger] self.entries()[j]).name@ by {
                    let oi = if i < k { i } else { i + 1 };
                    let oj = if j < k { j } else { j + 1 };
                    assert(before[oi] == self.entries()[i]);
                    assert(before[oj] == self.entries()[j]);
                }
                proof {
                    if self.has_name(name@) {
                        let i = choose|i: int| 0 <= i < self.entries().len() && (#[trigger] self.entries()[i]).name@ == name@;
                        let oi = if i < k { i } else { i + 1 };
                        assert(before[oi] == self.entries()[i]);
                    }
                }
                assert forall|n: Seq<char>| n != name@ implies #[trigger] self.agent_named(n) == old(self).agent_named(n) by {
                    if old(self).has_name(n) {
                        let i = choose|i: int| 0 <= i < before.len() && (#[trigger] before[i]).name@ == n;
                        old(self).lemma_named_at(n, i);
                        assert(i != k);
                        let ni = if i < k { i } else { i - 1 };
                        assert(self.entries()[ni] == before[i]);
                        self.lemma_named_at(n, ni);
                    } else {
                        if self.has_name(n) {
                            let i = choose|i: int| 0 <= i < self.entries().len() && (#[trigger] self.entries()[i]).name@ == n;
                            let oi = if i < k { i } else { i + 1 };
                            assert(before[oi] == self.entries()[i]);
                        }
                    }
                }
            },
            None => {},
        }
    }
}

impl Default for AgentStore {
    fn default() -> (r: AgentStore)
        ensures
            r.well_formed(),
            forall|n: Seq<char>| (#[trigger] r.agent_named(n)).is_none(),
    {
        AgentStore::new()
    }
}

} // verus!
