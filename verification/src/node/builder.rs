//! Building a node: store, identity, write concern, whitelist and transport settings.
use vstd::prelude::*;
use crate::ids::PeerId;
use crate::idset::IdSet;
use crate::crypto::Ed25519Signer;
use crate::storage::MemoryStorage;
use crate::error::Error;
use crate::runtime::IrohRuntimeConfig;
use crate::node::{Irokle, NodeConfig, WriteConcern, IrohSettings, whitelist_view};

verus! {

/// The parts of a node before it is built.
#[derive(Debug)]
pub struct IrokleBuilder {
    storage: MemoryStorage,
    config: NodeConfig,
    signer_explicit: bool,
    write_concern_explicit: bool,
    iroh: IrohSettings,
}

impl IrokleBuilder {
    /// The store the node will work on.
    pub closed spec fn spec_storage(&self) -> MemoryStorage {
        self.storage
    }

    /// The configuration the node will start with.
    pub closed spec fn spec_config(&self) -> NodeConfig {
        self.config
    }

    /// The transport settings the node will start with.
    pub closed spec fn spec_iroh(&self) -> IrohSettings {
        self.iroh
    }

    /// A builder over an empty store with `config`.
    pub fn new(config: NodeConfig) -> (r: IrokleBuilder)
        ensures
            r.spec_config() == config,
            r.spec_storage().ops_map() == Map::<crate::ids::OpId, crate::storage::StoredOp>::empty(),
            r.spec_storage().topics_map() == Map::<crate::ids::TopicId, crate::storage::TopicRecord>::empty(),
            r.spec_storage().pending_seq() == Seq::<crate::storage::PendingOp>::empty(),
            crate::node::store_consistent(r.spec_storage()),
    {
        let storage = MemoryStorage::new();
        proof {
            assert(storage.ops_map().dom() =~= Set::<crate::ids::OpId>::empty());
            assert(storage.topics_map().dom() =~= Set::<crate::ids::TopicId>::empty());
            crate::node::lemma_empty_store_consistent(storage);
        }
        IrokleBuilder {
            storage,
            config,
            signer_explicit: false,
            write_concern_explicit: false,
            iroh: IrohSettings::new(),
        }
    }

    /// This builder over `storage`.
    pub fn with_storage(self, storage: MemoryStorage) -> (r: IrokleBuilder)
        ensures r.spec_storage() == storage, r.spec_config() == self.spec_config(), r.spec_iroh() == self.spec_iroh(),
    {
        IrokleBuilder { storage, ..self }
    }

    /// This builder with `config` in place of its configuration.
    pub fn with_config(self, config: NodeConfig) -> (r: IrokleBuilder)
        ensures r.spec_config() == config, r.spec_storage() == self.spec_storage(), r.spec_iroh() == self.spec_iroh(),
    {
        IrokleBuilder { config, signer_explicit: true, write_concern_explicit: true, ..self }
    }

    /// This builder with `signer` as the node's identity.
    pub fn with_signer(self, signer: Ed25519Signer) -> (r: IrokleBuilder)
        ensures
            r.spec_config().signer == signer,
            r.spec_config().default_write_concern == self.spec_config().default_write_concern,
            r.spec_config().peer_whitelist == self.spec_config().peer_whitelist,
            r.spec_storage() == self.spec_storage(),
    {
        let IrokleBuilder { storage, config, signer_explicit: _, write_concern_explicit, iroh } = self;
        let NodeConfig { signer: _, default_write_concern, peer_whitelist } = config;
        IrokleBuilder {
            storage,
            config: NodeConfig { signer, default_write_concern, peer_whitelist },
            signer_explicit: true,
            write_concern_explicit,
            iroh,
        }
    }

    /// This builder with `write_concern` as the default.
    pub fn with_write_concern(self, write_concern: WriteConcern) -> (r: IrokleBuilder)
        ensures
            r.spec_config().default_write_concern == write_concern,
            r.spec_config().signer == self.spec_config().signer,
            r.spec_config().peer_whitelist == self.spec_config().peer_whitelist,
            r.spec_storage() == self.spec_storage(),
    {
        let IrokleBuilder { storage, config, signer_explicit, write_concern_explicit: _, iroh } = self;
        let NodeConfig { signer, default_write_concern: _, peer_whitelist } = config;
        IrokleBuilder {
            storage,
            config: NodeConfig { signer, default_write_concern: write_concern, peer_whitelist },
            signer_explicit,
            write_concern_explicit: true,
            iroh,
        }
    }

    /// This builder allowing exactly `peer_ids` to reach the node.
    pub fn with_peer_whitelist(self, peer_ids: IdSet) -> (r: IrokleBuilder)
        ensures
            whitelist_view(r.spec_config().peer_whitelist) == Some(peer_ids@),
            r.spec_config().signer == self.spec_config().signer,
            r.spec_storage() == self.spec_storage(),
    {
        let IrokleBuilder { storage, config, signer_explicit, write_concern_explicit, iroh } = self;
        let NodeConfig { signer, default_write_concern, peer_whitelist: _ } = config;
        IrokleBuilder {
            storage,
            config: NodeConfig { signer, default_write_concern, peer_whitelist: Some(peer_ids) },
            signer_explicit,
            write_concern_explicit,
            iroh,
        }
    }

    /// This builder allowing every peer to reach the node.
    pub fn without_peer_whitelist(self) -> (r: IrokleBuilder)
        ensures
            r.spec_config().peer_whitelist is None,
            r.spec_config().signer == self.spec_config().signer,
            r.spec_storage() == self.spec_storage(),
    {
        let IrokleBuilder { storage, config, signer_explicit, write_concern_explicit, iroh } = self;
        let NodeConfig { signer, default_write_concern, peer_whitelist: _ } = config;
        IrokleBuilder {
            storage,
            config: NodeConfig { signer, default_write_concern, peer_whitelist: None },
            signer_explicit,
            write_concern_explicit,
            iroh,
        }
    }

    /// This builder with `secret_key` as the transport's key and the node's identity.
    pub fn with_iroh_secret_key(self, secret_key: [u8; 32]) -> (r: IrokleBuilder)
        ensures
            r.spec_iroh().secret_key == Some(secret_key),
            r.spec_config().signer.secret_bytes() == secret_key@,
            r.spec_config().signer.spec_peer_id().bytes@ == crate::crypto::spec_public_key(secret_key@),
            r.spec_config().default_write_concern == self.spec_config().default_write_concern,
            r.spec_config().peer_whitelist == self.spec_config().peer_whitelist,
            r.spec_storage() == self.spec_storage(),
    {
        let IrokleBuilder { storage, config, signer_explicit: _, write_concern_explicit, iroh } = self;
        let IrohSettings { secret_key: _, alpns, auto_accept, runtime } = iroh;
        let NodeConfig { signer: _, default_write_concern, peer_whitelist } = config;
        let signer = Ed25519Signer::from_bytes(secret_key);
        IrokleBuilder {
            storage,
            config: NodeConfig { signer, default_write_concern, peer_whitelist },
            signer_explicit: true,
            write_concern_explicit,
            iroh: IrohSettings { secret_key: Some(secret_key), alpns, auto_accept, runtime },
        }
    }

    /// This builder accepting one more application protocol; a name it accepts
    /// already is not added again.
    pub fn with_alpn(self, alpn: Vec<u8>) -> (r: IrokleBuilder)
        ensures
            r.spec_iroh().alpns@ == crate::transport::with_one_alpn(self.spec_iroh().alpns@, alpn),
            r.spec_config() == self.spec_config(),
    {
        let IrokleBuilder { storage, config, signer_explicit, write_concern_explicit, iroh } = self;
        let IrohSettings { secret_key, mut alpns, auto_accept, runtime } = iroh;
        crate::transport::add_alpn(&mut alpns, alpn);
        IrokleBuilder {
            storage, config, signer_explicit, write_concern_explicit,
            iroh: IrohSettings { secret_key, alpns, auto_accept, runtime },
        }
    }

    /// This builder accepting more application protocols, each name once.
    pub fn with_alpns(self, more: Vec<Vec<u8>>) -> (r: IrokleBuilder)
        ensures
            r.spec_iroh().alpns@ == crate::transport::with_alpn_list(self.spec_iroh().alpns@, more@),
            r.spec_config() == self.spec_config(),
    {
        let IrokleBuilder { storage, config, signer_explicit, write_concern_explicit, iroh } = self;
        let IrohSettings { secret_key, mut alpns, auto_accept, runtime } = iroh;
        let ghost start = alpns@;
        let mut more = more;
        let mut rest: Vec<Vec<u8>> = Vec::new();
        let ghost all = more@;
        while more.len() > 0
            invariant all == more@ + rest@.reverse(),
            decreases more@.len(),
        {
            let x = more.pop().unwrap();
            let ghost rb = rest@;
            rest.push(x);
            proof { assert(rest@.reverse() =~= seq![x] + rb.reverse()); assert(all =~= more@ + rest@.reverse()); }
        }
        proof { assert(all =~= rest@.reverse()); assert(all.take(0) =~= Seq::<Vec<u8>>::empty()); }
        while rest.len() > 0
            invariant
                rest@.len() <= all.len(),
                rest@.reverse() == all.skip(all.len() - rest@.len()),
                alpns@ == crate::transport::with_alpn_list(start, all.take(all.len() - rest@.len())),
            decreases rest@.len(),
        {
            let ghost rb = rest@;
            let ghost k = all.len() - rb.len();
            let x = rest.pop().unwrap();
            proof {
                assert(rb =~= rest@.push(x));
                assert(rb.reverse()[0] == x);
                assert(all.skip(k)[0] == all[k]);
                assert(x == all[k]);
                assert(rest@.reverse() =~= all.skip(k + 1)) by {
                    assert forall|j: int| 0 <= j < rest@.len() implies rest@.reverse()[j] == all.skip(k + 1)[j] by {
                        assert(rest@.reverse()[j] == rb.reverse()[j + 1]);
                    }
                }
                assert(all.take(k + 1).drop_last() =~= all.take(k));
                assert(all.take(k + 1).last() == x);
            }
            crate::transport::add_alpn(&mut alpns, x);
        }
        proof { assert(all.take(all.len() as int) =~= all); }
        IrokleBuilder {
            storage, config, signer_explicit, write_concern_explicit,
            iroh: IrohSettings { secret_key, alpns, auto_accept, runtime },
        }
    }

    /// The application protocols the node will accept.
    pub fn alpns(&self) -> (r: &Vec<Vec<u8>>)
        ensures r@ == self.spec_iroh().alpns@,
    {
        &self.iroh.alpns
    }

    /// This builder leaving incoming connections unaccepted.
    pub fn without_auto_accept(self) -> (r: IrokleBuilder)
        ensures !r.spec_iroh().auto_accept, r.spec_config() == self.spec_config(),
    {
        let IrokleBuilder { storage, config, signer_explicit, write_concern_explicit, iroh } = self;
        let IrohSettings { secret_key, alpns, auto_accept: _, runtime } = iroh;
        IrokleBuilder {
            storage, config, signer_explicit, write_concern_explicit,
            iroh: IrohSettings { secret_key, alpns, auto_accept: false, runtime },
        }
    }

    /// This builder with the transport's timeouts and intervals set to `runtime`.
    pub fn with_iroh_runtime_config(self, runtime: IrohRuntimeConfig) -> (r: IrokleBuilder)
        ensures r.spec_iroh().runtime == runtime, r.spec_config() == self.spec_config(),
    {
        let IrokleBuilder { storage, config, signer_explicit, write_concern_explicit, iroh } = self;
        let IrohSettings { secret_key, alpns, auto_accept, runtime: _ } = iroh;
        IrokleBuilder {
            storage, config, signer_explicit, write_concern_explicit,
            iroh: IrohSettings { secret_key, alpns, auto_accept, runtime },
        }
    }

    /// The node.
    pub fn build(self) -> (r: Irokle)
        ensures
            r.spec_signer() == self.spec_config().signer,
            r.spec_write_concern() == self.spec_config().default_write_concern,
            r.spec_whitelist() == whitelist_view(self.spec_config().peer_whitelist),
            r.spec_iroh() == self.spec_iroh(),
            crate::oplog::receive::keeps_entries(self.spec_storage().ops_map(), r.store().ops_map()),
            self.spec_storage().pending_seq().len() == 0 ==> r.store().topics_map() == self.spec_storage().topics_map()
                && r.store().ops_map() == self.spec_storage().ops_map(),
            r.spec_peer_id() == self.spec_config().signer.spec_peer_id(),
            self.spec_storage().pending_seq().len() == 0 && crate::node::store_consistent(self.spec_storage())
                ==> crate::node::store_consistent(r.store()),
    {
        Irokle::with_settings(self.storage, self.config, self.iroh)
    }
}

impl Irokle {
    /// A builder with a fresh random identity; `None` when no randomness is available.
    pub fn builder() -> (r: Option<IrokleBuilder>)
        ensures
            r matches Some(b) ==> b.spec_config().signer.wf() && b.spec_config().default_write_concern == WriteConcern::Local
                && b.spec_storage().ops_map() == Map::<crate::ids::OpId, crate::storage::StoredOp>::empty()
                && b.spec_storage().topics_map() == Map::<crate::ids::TopicId, crate::storage::TopicRecord>::empty()
                && b.spec_storage().pending_seq() == Seq::<crate::storage::PendingOp>::empty()
                && whitelist_view(b.spec_config().peer_whitelist) == Some(Set::<PeerId>::empty())
                && crate::node::store_consistent(b.spec_storage()),
    {
        match Ed25519Signer::generate() {
            Some(signer) => Some(IrokleBuilder::new(NodeConfig::new(signer))),
            None => None,
        }
    }

    /// A node over an empty store with a fresh random identity.
    pub fn in_memory() -> (r: Result<Irokle, Error>)
        ensures
            r matches Ok(node) ==> node.spec_signer().wf()
                && node.store().ops_map() == Map::<crate::ids::OpId, crate::storage::StoredOp>::empty(),
            r matches Err(e) ==> e is Storage,
    {
        match Ed25519Signer::generate() {
            Some(signer) => Ok(Irokle::new(NodeConfig::new(signer))),
            None => Err(Error::Storage(String::new())),
        }
    }
}

} // verus!
