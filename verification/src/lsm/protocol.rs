//! How the engine and its surroundings take turns.
//!
//! The engine touches no file. It asks for an action, and is told when the action was performed
//! and what came of it. This module says what is asked for when.
use super::memtable::ENTRY_SIZE;
use super::names::{listing, table_name, views};
use super::points::{map_points, newest};
use super::sstable::SSTableReader;
use super::table_format::{blocks_of, table_bytes, TableError};
use super::wal::record_bytes;
use crate::types::TimeSeriesPoint;
use vstd::prelude::*;

verus! {

/// How many tables a flush may leave behind; with as many or more, they are merged.
pub const COMPACTION_THRESHOLD: usize = 4;

/// What the engine asks for.
pub enum Action {
    /// Append the bytes to the log.
    AppendToLog(Vec<u8>),
    /// Write a file with this name and these contents.
    WriteTable(Vec<u8>, Vec<u8>),
    /// Throw the log away and start an empty one.
    ResetLog,
    /// Name all files of the directory.
    ListFiles,
    /// Read the table with this name.
    ReadTable(Vec<u8>),
    /// Remove the files with these names.
    RemoveFiles(Vec<Vec<u8>>),
    /// Nothing more: the operation is over.
    Finish(Result<(), TableError>),
}

/// What came of an action.
pub enum Event {
    /// It was performed.
    Done,
    /// The names of all files of the directory, in any order.
    Files(Vec<Vec<u8>>),
    /// The table that was read.
    Table(SSTableReader),
}

/// An action, over the bytes that it holds.
pub enum ActionView {
    AppendToLog(Seq<u8>),
    WriteTable(Seq<u8>, Seq<u8>),
    ResetLog,
    ListFiles,
    ReadTable(Seq<u8>),
    RemoveFiles(Seq<Seq<u8>>),
    Finish(Result<(), TableError>),
}

/// An event, over the bytes and points that it holds.
pub enum EventView {
    Done,
    Files(Seq<Seq<u8>>),
    Table(Option<Result<Seq<TimeSeriesPoint>, TableError>>),
}

impl Action {
    pub open spec fn view(&self) -> ActionView {
        match self {
            Action::AppendToLog(bytes) => ActionView::AppendToLog(bytes@),
            Action::WriteTable(name, contents) => ActionView::WriteTable(name@, contents@),
            Action::ResetLog => ActionView::ResetLog,
            Action::ListFiles => ActionView::ListFiles,
            Action::ReadTable(name) => ActionView::ReadTable(name@),
            Action::RemoveFiles(names) => ActionView::RemoveFiles(views(names@)),
            Action::Finish(result) => ActionView::Finish(*result),
        }
    }
}

impl Event {
    pub open spec fn view(&self) -> EventView {
        match self {
            Event::Done => EventView::Done,
            Event::Files(names) => EventView::Files(views(names@)),
            Event::Table(reader) => EventView::Table(reader.points()),
        }
    }
}

/// What the engine is waiting for.
pub enum StageView {
    /// Nothing.
    Idle,
    /// That the first of these points is in the log.
    Logging(Seq<TimeSeriesPoint>),
    /// That the table of a flush is written.
    WritingTable,
    /// That the log is empty.
    ResettingLog,
    /// The files of the directory, whose tables are merged if there are at least so many.
    Listing(usize),
    /// Of the tables with these names, the one at this place; the points are those of the
    /// tables before it.
    Reading(Seq<Seq<u8>>, nat, Seq<TimeSeriesPoint>),
    /// That the merge of the tables with these names is written.
    WritingMerged(Seq<Seq<u8>>),
    /// That the merged tables are removed.
    Removing,
}

/// What the engine holds.
pub struct EngineView {
    /// The value at each timestamp that is not in a table yet.
    pub mem: Map<i64, u64>,
    /// How many bytes these may occupy.
    pub capacity: usize,
    /// The highest sequence number of a table.
    pub seq: u64,
    pub stage: StageView,
}

/// The table that holds `points`.
pub open spec fn table_of(points: Seq<TimeSeriesPoint>) -> Seq<u8> {
    table_bytes(blocks_of(points))
}

pub open spec fn is_full(engine: EngineView) -> bool {
    ENTRY_SIZE * engine.mem.len() >= engine.capacity
}

pub open spec fn finished(engine: EngineView, result: Result<(), TableError>) -> (
    EngineView,
    ActionView,
) {
    (EngineView { stage: StageView::Idle, ..engine }, ActionView::Finish(result))
}

/// A flush: what is in memory goes to a new table.
pub open spec fn flushing(engine: EngineView) -> (EngineView, ActionView) {
    if engine.mem == Map::<i64, u64>::empty() {
        finished(engine, Ok(()))
    } else {
        let seq = (engine.seq + 1) as u64;
        (
            EngineView { mem: Map::empty(), seq, stage: StageView::WritingTable, ..engine },
            ActionView::WriteTable(table_name(seq), table_of(map_points(engine.mem))),
        )
    }
}

/// A write of `points`: each goes to the log first. A flush follows if the memory is full.
pub open spec fn writing(engine: EngineView, points: Seq<TimeSeriesPoint>) -> (
    EngineView,
    ActionView,
) {
    if points.len() > 0 {
        (
            EngineView { stage: StageView::Logging(points), ..engine },
            ActionView::AppendToLog(record_bytes(points[0])),
        )
    } else if is_full(engine) {
        flushing(engine)
    } else {
        finished(engine, Ok(()))
    }
}

/// A merge of all tables, if there are at least so many.
pub open spec fn compacting(engine: EngineView, at_least: usize) -> (EngineView, ActionView) {
    (EngineView { stage: StageView::Listing(at_least), ..engine }, ActionView::ListFiles)
}

/// A merge, with the points of the first `n` tables read: the next one, or the merged table with
/// the last point at each timestamp.
pub open spec fn merging(
    engine: EngineView,
    names: Seq<Seq<u8>>,
    n: nat,
    points: Seq<TimeSeriesPoint>,
) -> (EngineView, ActionView) {
    if n < names.len() {
        (
            EngineView { stage: StageView::Reading(names, n, points), ..engine },
            ActionView::ReadTable(names[n as int]),
        )
    } else {
        let seq = (engine.seq + 1) as u64;
        (
            EngineView { seq, stage: StageView::WritingMerged(names), ..engine },
            ActionView::WriteTable(table_name(seq), table_of(map_points(newest(points)))),
        )
    }
}

/// What follows an event.
pub open spec fn next(engine: EngineView, event: EventView) -> (EngineView, ActionView) {
    match (engine.stage, event) {
        (StageView::Logging(points), EventView::Done) => {
            let mem = engine.mem.insert(points[0].timestamp, points[0].value_bits);
            writing(EngineView { mem, ..engine }, points.skip(1))
        },
        (StageView::WritingTable, EventView::Done) => {
            (EngineView { stage: StageView::ResettingLog, ..engine }, ActionView::ResetLog)
        },
        (StageView::ResettingLog, EventView::Done) => compacting(engine, COMPACTION_THRESHOLD),
        (StageView::Listing(at_least), EventView::Files(names)) => {
            if listing(names).len() < at_least {
                finished(engine, Ok(()))
            } else {
                merging(engine, listing(names), 0, Seq::empty())
            }
        },
        (StageView::Reading(names, n, points), EventView::Table(read)) => match read {
            Some(Ok(more)) => merging(engine, names, n + 1, points + more),
            Some(Err(error)) => finished(engine, Err(error)),
            None => arbitrary(),
        },
        (StageView::WritingMerged(names), EventView::Done) => {
            (EngineView { stage: StageView::Removing, ..engine }, ActionView::RemoveFiles(names))
        },
        (StageView::Removing, EventView::Done) => finished(engine, Ok(())),
        _ => arbitrary(),
    }
}

/// Whether a table is written next.
pub open spec fn needs_number(engine: EngineView, event: EventView) -> bool {
    match (engine.stage, event) {
        (StageView::Logging(points), EventView::Done) => points.len() == 1 && ENTRY_SIZE
            * engine.mem.insert(points[0].timestamp, points[0].value_bits).len()
            >= engine.capacity,
        (StageView::Reading(names, n, _), EventView::Table(Some(Ok(_)))) => n + 1 >= names.len(),
        _ => false,
    }
}

/// Whether an event can come now, and can be gone on from: it is what the engine waits for, a
/// table that was read is not broken, and a sequence number is left for the next table.
pub open spec fn accepts(engine: EngineView, event: EventView) -> bool {
    &&& match (engine.stage, event) {
        (StageView::Logging(_), EventView::Done) => true,
        (StageView::WritingTable, EventView::Done) => true,
        (StageView::ResettingLog, EventView::Done) => true,
        (StageView::Listing(_), EventView::Files(_)) => true,
        (StageView::Reading(_, _, _), EventView::Table(read)) => read is Some,
        (StageView::WritingMerged(_), EventView::Done) => true,
        (StageView::Removing, EventView::Done) => true,
        _ => false,
    }
    &&& needs_number(engine, event) ==> engine.seq < u64::MAX
}

} // verus!
