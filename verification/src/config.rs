//! Engine construction: the options a caller chooses, and the engine they
//! select.

use vstd::prelude::*;
use crate::engine::StorageEngine;
use crate::entry::{Key, Sequence, Value};
use crate::error::Result;
use crate::lsm::{CompactionTrigger, LsmEngine, LsmOptions};
use crate::memory::MemoryEngine;
use crate::scan::Scan;

verus! {

/// Where an engine keeps its entries.
#[derive(Debug, Clone, Copy, PartialEq, Eq, Structural)]
pub enum BackingMode {
    /// In an ordered table in memory.
    InMemory,
    /// In a log-structured store whose runs the caller persists.
    OnDisk,
}

/// The options an engine is opened with.
#[derive(Debug)]
pub struct EngineConfig {
    pub mode: BackingMode,
    /// Where the on-disk engine keeps its files. The in-memory engine has no
    /// use for it.
    pub data_directory: Option<String>,
    /// The active buffer of the on-disk engine is sealed once this many
    /// bytes were written into it.
    pub memtable_size_threshold: usize,
    /// At most this many sealed buffers wait to be flushed.
    pub max_sealed: usize,
    /// When compaction of the on-disk engine is due.
    pub compaction_trigger: CompactionTrigger,
}

impl EngineConfig {
    /// Whether an engine can be opened with these options: the on-disk
    /// engine needs a data directory.
    pub open spec fn valid(&self) -> bool {
        self.mode == BackingMode::OnDisk ==> self.data_directory is Some
    }

    /// The thresholds that these options give a log-structured engine.
    pub open spec fn thresholds(&self) -> LsmOptions {
        LsmOptions {
            memtable_size_threshold: self.memtable_size_threshold,
            max_sealed: self.max_sealed,
            compaction_trigger: self.compaction_trigger,
        }
    }

    /// Whether an engine can be opened with these options.
    pub fn is_valid(&self) -> (r: bool)
        ensures
            r == self.valid(),
    {
        match self.mode {
            BackingMode::InMemory => true,
            BackingMode::OnDisk => self.data_directory.is_some(),
        }
    }

    /// The thresholds that these options give a log-structured engine.
    pub fn lsm_options(&self) -> (o: LsmOptions)
        ensures
            o == self.thresholds(),
    {
        LsmOptions {
            memtable_size_threshold: self.memtable_size_threshold,
            max_sealed: self.max_sealed,
            compaction_trigger: self.compaction_trigger,
        }
    }
}

/// An engine of either kind, for callers that choose the kind at run time.
#[derive(Debug)]
pub enum Engine {
    Memory(MemoryEngine),
    Lsm(LsmEngine),
}

impl Engine {
    /// Opens a fresh engine of the kind that `config` selects, or gives
    /// `None` where the options are not valid.
    pub fn open(config: &EngineConfig) -> (r: Option<Engine>)
        ensures
            r is Some <==> config.valid(),
            r matches Some(e) ==> {
                &&& e.wf()
                &&& e.contents() == Map::<Seq<u8>, Seq<u8>>::empty()
                &&& e.sequence() == 0
                &&& (e is Memory <==> config.mode == BackingMode::InMemory)
                &&& (e matches Engine::Lsm(l) ==> l.options() == config.thresholds())
            },
    {
        if !config.is_valid() {
            return None;
        }
        match config.mode {
            BackingMode::InMemory => Some(Engine::Memory(MemoryEngine::new())),
            BackingMode::OnDisk => Some(Engine::Lsm(LsmEngine::new(config.lsm_options()))),
        }
    }
}

impl StorageEngine for Engine {
    open spec fn wf(&self) -> bool {
        match self {
            Engine::Memory(e) => e.wf(),
            Engine::Lsm(e) => e.wf(),
        }
    }

    open spec fn contents(&self) -> Map<Seq<u8>, Seq<u8>> {
        match self {
            Engine::Memory(e) => e.contents(),
            Engine::Lsm(e) => e.contents(),
        }
    }

    open spec fn sequence(&self) -> u64 {
        match self {
            Engine::Memory(e) => e.sequence(),
            Engine::Lsm(e) => e.sequence(),
        }
    }

    fn last_sequence(&self) -> (s: Sequence) {
        match self {
            Engine::Memory(e) => e.last_sequence(),
            Engine::Lsm(e) => e.last_sequence(),
        }
    }

    fn get(&self, key: &[u8]) -> (r: Result<Option<Value>>)
        ensures
            r is Ok,
    {
        match self {
            Engine::Memory(e) => e.get(key),
            Engine::Lsm(e) => e.get(key),
        }
    }

    fn put(&mut self, key: Key, value: Value) -> (r: Result<()>)
        ensures
            r is Ok,
    {
        match self {
            Engine::Memory(e) => e.put(key, value),
            Engine::Lsm(e) => e.put(key, value),
        }
    }

    fn delete(&mut self, key: &[u8]) -> (r: Result<()>)
        ensures
            r is Ok,
    {
        match self {
            Engine::Memory(e) => e.delete(key),
            Engine::Lsm(e) => e.delete(key),
        }
    }

    fn scan(&self, start: &[u8], end: &[u8]) -> (r: Result<Scan>)
        ensures
            r is Ok,
    {
        match self {
            Engine::Memory(e) => e.scan(start, end),
            Engine::Lsm(e) => e.scan(start, end),
        }
    }
}

} // verus!
