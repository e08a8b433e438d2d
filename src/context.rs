use vstd::prelude::*;

use crate::calls::{
    arg_texts, call_text, fingerprint, mock_outcome, same_call_value, same_value, texts, CallError, CallValue, MockError, MockRegistry,
    MockedReturn,
};
use crate::record::{find_field, get_field, put_field, Record};
use crate::schema::Schema;
use crate::store::{EntityStore, FieldCheck, StoreError};

verus! {

/// The address that `dataSource.address()` gives until one is set.
pub const DEFAULT_ADDRESS: &'static str = "0x0000000000000000000000000000000000000000";

/// The network that `dataSource.network()` gives until one is set.
pub const DEFAULT_NETWORK: &'static str = "mainnet";

/// One entry of the test ledger: a name, whether the test is expected to
/// fail, the index of its handler, and its role (`test`, `describe` or a hook).
pub type TestEntry = (String, bool, u32, String);

/// The state of a test run: the entity store, the mocked calls, the test
/// ledger, the data-source mocks and the mocked files.
pub struct MatchstickInstanceContext {
    pub store: EntityStore,
    pub fn_ret_map: MockRegistry,
    pub meta_tests: Vec<TestEntry>,
    pub data_source_address: Option<String>,
    pub data_source_network: Option<String>,
    pub data_source_context: Record,
    pub ipfs: Vec<(String, String)>,
}

impl MatchstickInstanceContext {
    pub open spec fn wf(&self) -> bool {
        self.store.wf()
    }

    /// Everything but the entity store is as in `before`.
    pub open spec fn others_unchanged(&self, before: Self) -> bool {
        &&& self.fn_ret_map == before.fn_ret_map
        &&& self.meta_tests == before.meta_tests
        &&& self.data_source_address == before.data_source_address
        &&& self.data_source_network == before.data_source_network
        &&& self.data_source_context == before.data_source_context
        &&& self.ipfs == before.ipfs
    }

    /// Everything but the mocked calls is as in `before`.
    pub open spec fn all_but_calls_unchanged(&self, before: Self) -> bool {
        &&& self.store == before.store
        &&& self.meta_tests == before.meta_tests
        &&& self.data_source_address == before.data_source_address
        &&& self.data_source_network == before.data_source_network
        &&& self.data_source_context == before.data_source_context
        &&& self.ipfs == before.ipfs
    }

    /// Everything but the test ledger is as in `before`.
    pub open spec fn all_but_ledger_unchanged(&self, before: Self) -> bool {
        &&& self.store == before.store
        &&& self.fn_ret_map == before.fn_ret_map
        &&& self.data_source_address == before.data_source_address
        &&& self.data_source_network == before.data_source_network
        &&& self.data_source_context == before.data_source_context
        &&& self.ipfs == before.ipfs
    }

    /// A fresh context over a schema: nothing stored, mocked or registered.
    pub fn new(schema: Schema) -> (r: MatchstickInstanceContext)
        requires
            schema.wf(),
        ensures
            r.wf(),
            r.store.schema == schema,
            r.store.entities@.len() == 0,
            r.store.updated,
            r.fn_ret_map.entries@.len() == 0,
            r.meta_tests@.len() == 0,
            r.data_source_address is None,
            r.data_source_network is None,
            r.data_source_context@.len() == 0,
            r.ipfs@.len() == 0,
    {
        MatchstickInstanceContext {
            store: EntityStore::new(schema),
            fn_ret_map: MockRegistry::new(),
            meta_tests: Vec::new(),
            data_source_address: None,
            data_source_network: None,
            data_source_context: Vec::new(),
            ipfs: Vec::new(),
        }
    }

    /// Empties the entity store.
    pub fn clear_store(&mut self)
        requires
            old(self).wf(),
        ensures
            final(self).others_unchanged(*old(self)),
            final(self).wf(),
            final(self).store.schema == old(self).store.schema,
            final(self).store.entities@.len() == 0,
            final(self).store.updated,
    {
        self.store.clear();
    }

    /// Appends a test to the ledger.
    pub fn register_test(&mut self, name: String, should_fail: bool, func_idx: u32)
        ensures
            final(self).all_but_ledger_unchanged(*old(self)),
            final(self).meta_tests@.len() == old(self).meta_tests@.len() + 1,
            final(self).meta_tests@.drop_last() == old(self).meta_tests@,
            final(self).meta_tests@.last().0@ == name@,
            final(self).meta_tests@.last().1 == should_fail,
            final(self).meta_tests@.last().2 == func_idx,
            final(self).meta_tests@.last().3@ == seq!['t', 'e', 's', 't'],
            final(self).store == old(self).store,
    {
        proof { reveal_strlit("test"); }
        self.meta_tests.push((name, should_fail, func_idx, String::from_str("test")));
        assert(self.meta_tests@.drop_last() =~= old(self).meta_tests@);
    }

    /// Appends a group of tests to the ledger.
    pub fn register_describe(&mut self, name: String, func_idx: u32)
        ensures
            final(self).all_but_ledger_unchanged(*old(self)),
            final(self).meta_tests@.len() == old(self).meta_tests@.len() + 1,
            final(self).meta_tests@.drop_last() == old(self).meta_tests@,
            final(self).meta_tests@.last().0@ == name@,
            !final(self).meta_tests@.last().1,
            final(self).meta_tests@.last().2 == func_idx,
            final(self).meta_tests@.last().3@ == seq!['d', 'e', 's', 'c', 'r', 'i', 'b', 'e'],
            final(self).store == old(self).store,
    {
        proof { reveal_strlit("describe"); }
        self.meta_tests.push((name, false, func_idx, String::from_str("describe")));
        assert(self.meta_tests@.drop_last() =~= old(self).meta_tests@);
    }

    /// Appends a hook, with its role, to the ledger.
    pub fn register_hook(&mut self, func_idx: u32, role: String)
        ensures
            final(self).all_but_ledger_unchanged(*old(self)),
            final(self).meta_tests@.len() == old(self).meta_tests@.len() + 1,
            final(self).meta_tests@.drop_last() == old(self).meta_tests@,
            final(self).meta_tests@.last().0@.len() == 0,
            !final(self).meta_tests@.last().1,
            final(self).meta_tests@.last().2 == func_idx,
            final(self).meta_tests@.last().3@ == role@,
            final(self).store == old(self).store,
    {
        self.meta_tests.push((String::new(), false, func_idx, role));
        assert(self.meta_tests@.drop_last() =~= old(self).meta_tests@);
    }

    /// Compares the rendering of a stored field with `expected`, saying why
    /// when it does not match.
    pub fn assert_field_equals(&mut self, entity_type: &str, id: &str, field_name: &str, expected: &str) -> (r: FieldCheck)
        requires
            old(self).wf(),
        ensures
            final(self).others_unchanged(*old(self)),
            final(self).wf(),
            EntityStore::reconciled_from(old(self).store, final(self).store),
            crate::store::field_check_holds(final(self).store.entities@, entity_type@, id@, field_name@, expected@, r),
    {
        self.store.field_equals(entity_type, id, field_name, expected)
    }

    /// Reconciles the store, then tells whether two call values are the same
    /// value, kind and contents alike.
    pub fn assert_equals(&mut self, expected: &CallValue, actual: &CallValue) -> (r: bool)
        requires
            old(self).wf(),
        ensures
            final(self).wf(),
            EntityStore::reconciled_from(old(self).store, final(self).store),
            final(self).others_unchanged(*old(self)),
            r == same_value(*expected, *actual),
    {
        self.store.reconcile();
        same_call_value(expected, actual)
    }

    /// Tells whether no entity of this type and id is stored.
    pub fn assert_not_in_store(&mut self, entity_type: &str, id: &str) -> (r: bool)
        requires
            old(self).wf(),
        ensures
            final(self).others_unchanged(*old(self)),
            final(self).wf(),
            EntityStore::reconciled_from(old(self).store, final(self).store),
            r == !crate::store::stored(final(self).store.entities@, entity_type@, id@),
    {
        self.store.not_in_store(entity_type, id)
    }

    /// Reconciles the store, then gives the data of an entity.
    pub fn mock_store_get(&mut self, entity_type: &str, id: &str) -> (r: Option<&Record>)
        requires
            old(self).wf(),
        ensures
            final(self).others_unchanged(*old(self)),
            final(self).wf(),
            EntityStore::reconciled_from(old(self).store, final(self).store),
            match r {
                Some(rec) => exists|k: int| 0 <= k < final(self).store.entities@.len()
                    && #[trigger] final(self).store.entities@[k].etype@ == entity_type@
                    && final(self).store.entities@[k].id@ == id@ && *rec == final(self).store.entities@[k].fields,
                None => !crate::store::stored(final(self).store.entities@, entity_type@, id@),
            },
    {
        self.store.reconcile();
        self.store.entity(entity_type, id)
    }

    /// Writes an entity; see `EntityStore::set`.
    pub fn mock_store_set(&mut self, entity_type: String, id: String, data: Record) -> (r: Result<(), StoreError>)
        requires
            old(self).wf(),
            old(self).store.schema.declares(entity_type@),
        ensures
            final(self).others_unchanged(*old(self)),
            final(self).wf(),
            final(self).store.schema == old(self).store.schema,
            EntityStore::set_outcome(old(self).store, final(self).store, entity_type@, id@, data@, r),
            r is Err ==> final(self).store == old(self).store,
    {
        self.store.set(entity_type, id, data)
    }

    /// Deletes an entity; see `EntityStore::remove`.
    pub fn mock_store_remove(&mut self, entity_type: &str, id: &str) -> (r: Result<(), StoreError>)
        requires
            old(self).wf(),
        ensures
            final(self).others_unchanged(*old(self)),
            final(self).wf(),
            final(self).store.schema == old(self).store.schema,
            EntityStore::remove_outcome(old(self).store, final(self).store, entity_type@, id@, r),
            r is Err ==> final(self).store == old(self).store,
    {
        self.store.remove(entity_type, id)
    }

    /// Registers a mocked contract call; see `MockRegistry::mock_function`.
    pub fn mock_function(&mut self, contract_address: &str, fn_name: &str, fn_signature: &str, fn_args: &Vec<CallValue>,
        return_value: Vec<CallValue>, reverts: bool) -> (r: Result<(), MockError>)
        requires
            old(self).wf(),
        ensures
            final(self).all_but_calls_unchanged(*old(self)),
            final(self).wf(),
            final(self).store == old(self).store,
            mock_outcome(old(self).fn_ret_map.entries@, final(self).fn_ret_map.entries@, contract_address@, fn_name@,
                fn_signature@, fn_args@, if reverts { MockedReturn::Reverts } else { MockedReturn::Values(return_value) }, r),
    {
        self.fn_ret_map.mock_function(contract_address, fn_name, fn_signature, fn_args, return_value, reverts)
    }

    /// Answers a contract call from the mocks; see `MockRegistry::ethereum_call`.
    pub fn ethereum_call(&self, contract_address: &str, fn_name: &str, fn_signature: &str, fn_args: &Vec<CallValue>)
        -> (r: Result<&Vec<CallValue>, CallError>)
        ensures
            match r {
                Ok(vals) => get_field(self.fn_ret_map.entries@,
                    fingerprint(contract_address@, fn_name@, fn_signature@, arg_texts(fn_args@))) == Some(MockedReturn::Values(*vals)),
                Err(CallError::Reverted) => get_field(self.fn_ret_map.entries@,
                    fingerprint(contract_address@, fn_name@, fn_signature@, arg_texts(fn_args@))) == Some(MockedReturn::Reverts),
                Err(CallError::NotMocked { address, name, signature, args }) => get_field(self.fn_ret_map.entries@,
                    fingerprint(contract_address@, fn_name@, fn_signature@, arg_texts(fn_args@))) is None
                    && address@ == contract_address@ && name@ == fn_name@ && signature@ == fn_signature@
                    && texts(args@) == arg_texts(fn_args@),
            },
    {
        self.fn_ret_map.ethereum_call(contract_address, fn_name, fn_signature, fn_args)
    }

    /// Creating a data source from a template has no effect in a test run.
    pub fn mock_data_source_create(&self, _name: &str, _params: &Vec<String>) {
    }

    /// Creating a data source with a context has no effect in a test run.
    pub fn mock_data_source_create_with_context(&self, _name: &str, _params: &Vec<String>, _context: &Record) {
    }

    /// The address that the data source mock gives.
    pub fn mock_data_source_address(&self) -> (r: String)
        ensures
            match self.data_source_address {
                Some(a) => r@ == a@,
                None => r@ == DEFAULT_ADDRESS@,
            },
    {
        match &self.data_source_address {
            Some(a) => a.clone(),
            None => String::from_str(DEFAULT_ADDRESS),
        }
    }

    /// The network that the data source mock gives.
    pub fn mock_data_source_network(&self) -> (r: String)
        ensures
            match self.data_source_network {
                Some(n) => r@ == n@,
                None => r@ == DEFAULT_NETWORK@,
            },
    {
        match &self.data_source_network {
            Some(n) => n.clone(),
            None => String::from_str(DEFAULT_NETWORK),
        }
    }

    /// The context record that the data source mock gives; empty until one
    /// is set.
    pub fn mock_data_source_context(&self) -> (r: &Record)
        ensures
            *r == self.data_source_context,
    {
        &self.data_source_context
    }

    /// Sets what the data source mock gives.
    pub fn set_data_source_return_values(&mut self, address: String, network: String, context: Record)
        ensures
            final(self).data_source_address == Some(address),
            final(self).data_source_network == Some(network),
            final(self).data_source_context == context,
            final(self).store == old(self).store,
            final(self).fn_ret_map == old(self).fn_ret_map,
            final(self).meta_tests == old(self).meta_tests,
            final(self).ipfs == old(self).ipfs,
    {
        self.data_source_address = Some(address);
        self.data_source_network = Some(network);
        self.data_source_context = context;
    }

    /// Reconciles the store, then counts the entities of a type.
    pub fn count_entities(&mut self, entity_type: &str) -> (r: usize)
        requires
            old(self).wf(),
        ensures
            final(self).others_unchanged(*old(self)),
            final(self).wf(),
            EntityStore::reconciled_from(old(self).store, final(self).store),
            r == crate::store::count_of(final(self).store.entities@, entity_type@),
    {
        self.store.count(entity_type)
    }

    /// Hands this context's run state (stored entities, the in-step flag,
    /// mocked calls and data-source mocks) to `other`, and takes `other`'s in
    /// return: the move in and out of the context that runs a mapped-file
    /// callback, so the two are never changed at once.
    pub fn hand_over(&mut self, other: &mut MatchstickInstanceContext)
        requires
            old(self).wf(),
            old(other).wf(),
            old(self).store.schema == old(other).store.schema,
        ensures
            final(self).wf(),
            final(other).wf(),
            final(other).store == old(self).store,
            final(self).store == old(other).store,
            final(other).fn_ret_map == old(self).fn_ret_map,
            final(self).fn_ret_map == old(other).fn_ret_map,
            final(other).data_source_address == old(self).data_source_address,
            final(self).data_source_address == old(other).data_source_address,
            final(other).data_source_network == old(self).data_source_network,
            final(self).data_source_network == old(other).data_source_network,
            final(other).data_source_context == old(self).data_source_context,
            final(self).data_source_context == old(other).data_source_context,
            final(self).meta_tests == old(self).meta_tests,
            final(other).meta_tests == old(other).meta_tests,
            final(self).ipfs == old(self).ipfs,
            final(other).ipfs == old(other).ipfs,
    {
        std::mem::swap(&mut self.store, &mut other.store);
        std::mem::swap(&mut self.fn_ret_map, &mut other.fn_ret_map);
        std::mem::swap(&mut self.data_source_address, &mut other.data_source_address);
        std::mem::swap(&mut self.data_source_network, &mut other.data_source_network);
        std::mem::swap(&mut self.data_source_context, &mut other.data_source_context);
    }

    /// Maps a content hash to the local file that stands for it.
    pub fn mock_ipfs_file(&mut self, hash: String, file_path: String)
        ensures
            forall|h: Seq<char>| #[trigger] get_field(final(self).ipfs@, h)
                == if h == hash@ { Some(file_path) } else { get_field(old(self).ipfs@, h) },
            final(self).store == old(self).store,
            final(self).fn_ret_map == old(self).fn_ret_map,
            final(self).meta_tests == old(self).meta_tests,
            final(self).data_source_address == old(self).data_source_address,
            final(self).data_source_network == old(self).data_source_network,
            final(self).data_source_context == old(self).data_source_context,
    {
        put_field(&mut self.ipfs, &hash, file_path);
    }

    /// The local file that stands for a content hash.
    pub fn ipfs_file_path(&self, hash: &str) -> (r: Option<&String>)
        ensures
            match r {
                Some(p) => get_field(self.ipfs@, hash@) == Some(*p),
                None => get_field(self.ipfs@, hash@) is None,
            },
    {
        match find_field(&self.ipfs, hash) {
            Some(k) => Some(&self.ipfs[k].1),
            None => None,
        }
    }
}

} // verus!
