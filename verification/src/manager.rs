//! The registry of data known to the library: each piece of data is found by
//! its id and carries its description and its bytes.
use vstd::prelude::*;

use crate::context::{Command, ObliData, TaCallerInfo};
use crate::logger::Logger;
use crate::strmap::StrMap;

verus! {

/// What `insert` answers when the key is already registered.
pub const ALREADY_REGISTERED: &'static str =
    "[data::manager::inser()] DATA_MANAGER already had the data";

/// The log line written when requested data is not registered.
pub const NOT_READY_LOG: &'static str = "[ta::manager.rs::get_data_handle()] data not ready";

/// The note of a reply whose data was found.
pub const DATA_READY: &'static str = "data ready";

/// The note of a reply whose data was not found.
pub const DATA_NOT_READY: &'static str = "data not ready";

/// One registered piece of data: its description and its bytes.
pub struct Data {
    pub description: ObliData,
    pub buffer: Vec<u8>,
}

/// A piece of data as the contracts see it.
pub struct DataView {
    pub description: ObliData,
    pub buffer: Seq<u8>,
}

impl View for Data {
    type V = DataView;

    open spec fn view(&self) -> DataView {
        DataView { description: self.description, buffer: self.buffer@ }
    }
}

/// The registry: at most one piece of data per id.
pub struct DataManager {
    map: StrMap<Data>,
}

impl View for DataManager {
    type V = Map<Seq<char>, DataView>;

    closed spec fn view(&self) -> Map<Seq<char>, DataView> {
        self.map@.map_values(|d: Data| d@)
    }
}

/// The registry after a successful registration of `data` under `key`,
/// with the given readiness.
pub open spec fn registered(
    m: Map<Seq<char>, DataView>,
    key: Seq<char>,
    data: ObliData,
    buffer: Seq<u8>,
    prepared: bool,
) -> Map<Seq<char>, DataView> {
    m.insert(key, DataView { description: ObliData { prepared: prepared, ..data }, buffer: buffer })
}

/// Registering a value and then viewing the map is viewing and then
/// registering the value's view.
proof fn lemma_views_insert(m: Map<Seq<char>, Data>, k: Seq<char>, d: Data)
    ensures
        m.insert(k, d).map_values(|x: Data| x@) == m.map_values(|x: Data| x@).insert(k, d@),
{
    assert(m.insert(k, d).map_values(|x: Data| x@) =~= m.map_values(|x: Data| x@).insert(k, d@));
}

/// What is registered reads back: the id then holds the bytes given and a
/// copy of the description marked as asked, every other id keeps its data,
/// and a second registration under the same id finds it taken.
pub proof fn lemma_register_then_read(
    m: Map<Seq<char>, DataView>,
    key: Seq<char>,
    data: ObliData,
    buffer: Seq<u8>,
    prepared: bool,
)
    ensures
        registered(m, key, data, buffer, prepared).contains_key(key),
        registered(m, key, data, buffer, prepared)[key].buffer == buffer,
        registered(m, key, data, buffer, prepared)[key].description == (ObliData { prepared: prepared, ..data }),
        forall|k: Seq<char>|
            k != key ==> (#[trigger] registered(m, key, data, buffer, prepared).contains_key(k)
                == m.contains_key(k)) && (m.contains_key(k) ==> registered(
                m,
                key,
                data,
                buffer,
                prepared,
            )[k] == m[k]),
{
}

impl DataManager {
    /// The registry's internal map is well formed.
    pub closed spec fn wf(&self) -> bool {
        self.map.wf()
    }

    /// An empty registry.
    pub fn new() -> (r: DataManager)
        ensures
            r.wf(),
            r@ == Map::<Seq<char>, DataView>::empty(),
    {
        let r = DataManager { map: StrMap::new() };
        assert(r@ =~= Map::<Seq<char>, DataView>::empty());
        r
    }

    /// Registers a copy of `data`, marked ready, with a copy of `buffer`,
    /// under `key`; refused when `key` is already registered.
    pub fn insert(&mut self, key: &str, data: &ObliData, buffer: &[u8]) -> (r: Result<(), &'static str>)
        requires
            old(self).wf(),
        ensures
            final(self).wf(),
            old(self)@.contains_key(key@) ==> r == Err::<(), &'static str>(ALREADY_REGISTERED)
                && final(self)@ == old(self)@,
            !old(self)@.contains_key(key@) ==> r is Ok && final(self)@ == registered(
                old(self)@,
                key@,
                *data,
                buffer@,
                true,
            ),
    {
        self.insert_with_status(key, data, buffer, true)
    }

    /// Registers a copy of `data`, with the given readiness, with a copy of
    /// `buffer`, under `key`; refused when `key` is already registered.
    pub fn insert_with_status(&mut self, key: &str, data: &ObliData, buffer: &[u8], prepared: bool) -> (r:
        Result<(), &'static str>)
        requires
            old(self).wf(),
        ensures
            final(self).wf(),
            old(self)@.contains_key(key@) ==> r == Err::<(), &'static str>(ALREADY_REGISTERED)
                && final(self)@ == old(self)@,
            !old(self)@.contains_key(key@) ==> r is Ok && final(self)@ == registered(
                old(self)@,
                key@,
                *data,
                buffer@,
                prepared,
            ),
    {
        if self.map.contains_key(key) {
            return Err(ALREADY_REGISTERED);
        }
        let mut description = data.clone();
        description.prepared = prepared;
        let bytes: Vec<u8> = vstd::slice::slice_to_vec(buffer);
        let d = Data { description, buffer: bytes };
        let ghost v = d@;
        let k: String = key.to_owned();
        self.map.insert(k, d);
        assert(self@ =~= old(self)@.insert(key@, v));
        Ok(())
    }

    /// A mutable reference to the data registered under `key`, if any.
    pub fn get_data_mut(&mut self, key: &str) -> (r: Option<&mut Data>)
        requires
            old(self).wf(),
        ensures
            final(self).wf(),
            match r {
                Some(d) => {
                    &&& old(self)@.contains_key(key@)
                    &&& d@ == old(self)@[key@]
                    &&& final(self)@ == old(self)@.insert(key@, final(d)@)
                },
                None => {
                    &&& !old(self)@.contains_key(key@)
                    &&& final(self)@ == old(self)@
                },
            },
    {
        let ghost before = self.map@;
        let r = self.map.get_mut(key);
        match r {
            Some(d) => {
                proof {
                    lemma_views_insert(before, key@, *final(d));
                }
                Some(d)
            },
            None => None,
        }
    }

    /// The data registered under `key`, if any.
    pub fn get_data(&self, key: &str) -> (r: Option<&Data>)
        requires
            self.wf(),
        ensures
            match r {
                Some(d) => self@.contains_key(key@) && d@ == self@[key@],
                None => !self@.contains_key(key@),
            },
    {
        self.map.get(key)
    }

    /// Whether data is registered under `key`.
    pub fn contains(&self, key: &str) -> (r: bool)
        requires
            self.wf(),
        ensures
            r == self@.contains_key(key@),
    {
        self.map.contains_key(key)
    }
}

/// Registers pushed data under its own id, marked ready; refused when the
/// id is already registered.
pub fn push_data_handler(dm: &mut DataManager, data: &ObliData, buffer: &[u8]) -> (r: Result<
    (),
    &'static str,
>)
    requires
        old(dm).wf(),
    ensures
        final(dm).wf(),
        old(dm)@.contains_key(data.id@) ==> r == Err::<(), &'static str>(ALREADY_REGISTERED)
            && final(dm)@ == old(dm)@,
        !old(dm)@.contains_key(data.id@) ==> r is Ok && final(dm)@ == registered(
            old(dm)@,
            data.id@,
            *data,
            buffer@,
            true,
        ),
{
    dm.insert(data.id.as_str(), data, buffer)?;
    Ok(())
}

/// Writes `src` over the first bytes of `dst`.
pub fn copy_into_prefix(dst: &mut [u8], src: &[u8])
    requires
        src@.len() <= old(dst)@.len(),
    ensures
        final(dst)@ == src@ + old(dst)@.subrange(src@.len() as int, old(dst)@.len() as int),
{
    let mut i: usize = 0;
    while i < src.len()
        invariant
            i <= src@.len(),
            src@.len() <= old(dst)@.len(),
            dst@.len() == old(dst)@.len(),
            forall|j: int| 0 <= j < i ==> dst@[j] == src@[j],
            forall|j: int| i <= j < dst@.len() ==> dst@[j] == old(dst)@[j],
        decreases src@.len() - i,
    {
        dst[i] = src[i];
        i = i + 1;
    }
    assert(dst@ =~= src@ + old(dst)@.subrange(src@.len() as int, old(dst)@.len() as int));
}

/// Answers a request for the data that `target` names: when it is
/// registered, its bytes are copied to the front of `output` and the reply
/// says it is ready; otherwise a line is logged, `output` is left alone and
/// the reply says it is not ready.
pub fn data_get_reply(dm: &DataManager, target: &ObliData, output: &mut [u8], logger: &mut Logger) -> (r:
    TaCallerInfo)
    requires
        dm.wf(),
        dm@.contains_key(target.id@) ==> dm@[target.id@].buffer.len() <= old(output)@.len(),
    ensures
        r.method == Command::DataGet,
        dm@.contains_key(target.id@) ==> {
            &&& r.ok
            &&& r.info@ == DATA_READY@
            &&& final(output)@ == dm@[target.id@].buffer + old(output)@.subrange(
                dm@[target.id@].buffer.len() as int,
                old(output)@.len() as int,
            )
            &&& final(logger)@ == old(logger)@
        },
        !dm@.contains_key(target.id@) ==> {
            &&& !r.ok
            &&& r.info@ == DATA_NOT_READY@
            &&& final(output)@ == old(output)@
            &&& final(logger)@.len() == old(logger)@.len() + 1
            &&& final(logger)@.drop_last() == old(logger)@
            &&& final(logger)@.last()@ == NOT_READY_LOG@
        },
{
    match dm.get_data(target.id.as_str()) {
        Some(data) => {
            copy_into_prefix(output, data.buffer.as_slice());
            TaCallerInfo { method: Command::DataGet, info: DATA_READY.to_owned(), ok: true }
        },
        None => {
            logger.log(NOT_READY_LOG.to_owned());
            proof {
                assert(logger@.drop_last() =~= old(logger)@);
            }
            TaCallerInfo { method: Command::DataGet, info: DATA_NOT_READY.to_owned(), ok: false }
        },
    }
}

} // verus!
