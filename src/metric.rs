use vstd::prelude::*;

use crate::action::Action;

verus! {

/// Why the storage collaborator could not keep a metric.
#[derive(Debug)]
pub struct StorageFailure {
    pub reason: String,
}

/// The durable store that metrics are handed to once they have been read.
pub trait MetricStore<T> {
    /// `after` is this store once it was asked to keep the metric of these
    /// fields and answered `r`.
    spec fn took(
        &self,
        after: &Self,
        player_id: Seq<char>,
        action: Action,
        value: T,
        timestamp: u32,
        r: Result<(), StorageFailure>,
    ) -> bool;

    fn store(&mut self, player_id: String, action: Action, value: T, timestamp: u32) -> (r: Result<
        (),
        StorageFailure,
    >)
        ensures
            old(self).took(final(self), player_id@, action, value, timestamp, r),
    ;
}

/// One stored metric: (player id, action, value, timestamp).
pub type StoredRecord = (String, Action, u32, u32);

/// A store that keeps metrics in memory, in the order they arrive, while it
/// is open; once closed it refuses every metric.
pub struct MemoryStore {
    records: Vec<StoredRecord>,
    open: bool,
}

/// The fields of a stored record.
pub open spec fn record_view(r: StoredRecord) -> (Seq<char>, Action, u32, u32) {
    (r.0@, r.1, r.2, r.3)
}

impl MemoryStore {
    /// The metrics kept so far, oldest first.
    pub closed spec fn kept(&self) -> Seq<(Seq<char>, Action, u32, u32)> {
        self.records@.map_values(|r: StoredRecord| record_view(r))
    }

    pub closed spec fn is_open(&self) -> bool {
        self.open
    }

    /// An open store that holds nothing.
    pub fn new() -> (r: MemoryStore)
        ensures
            r.is_open(),
            r.kept() == Seq::<(Seq<char>, Action, u32, u32)>::empty(),
    {
        let r = MemoryStore { records: Vec::new(), open: true };
        assert(r.kept() =~= Seq::<(Seq<char>, Action, u32, u32)>::empty());
        r
    }

    /// Refuses every later metric; what was kept stays.
    pub fn close(&mut self)
        ensures
            !final(self).is_open(),
            final(self).kept() == old(self).kept(),
    {
        self.open = false;
    }

    pub fn is_closed(&self) -> (r: bool)
        ensures
            r == !self.is_open(),
    {
        !self.open
    }

    /// The number of metrics kept.
    pub fn len(&self) -> (r: usize)
        ensures
            r == self.kept().len(),
    {
        self.records.len()
    }

    /// The metric kept at position `i`.
    pub fn record(&self, i: usize) -> (r: (&String, Action, u32, u32))
        requires
            i < self.kept().len(),
        ensures
            (r.0@, r.1, r.2, r.3) == self.kept()[i as int],
    {
        let rec = &self.records[i];
        (&rec.0, rec.1, rec.2, rec.3)
    }
}

impl MetricStore<u32> for MemoryStore {
    open spec fn took(
        &self,
        after: &Self,
        player_id: Seq<char>,
        action: Action,
        value: u32,
        timestamp: u32,
        r: Result<(), StorageFailure>,
    ) -> bool {
        if self.is_open() {
            &&& r is Ok
            &&& after.is_open()
            &&& after.kept() == self.kept().push((player_id, action, value, timestamp))
        } else {
            &&& r is Err
            &&& !after.is_open()
            &&& after.kept() == self.kept()
        }
    }

    fn store(&mut self, player_id: String, action: Action, value: u32, timestamp: u32) -> (r: Result<
        (),
        StorageFailure,
    >) {
        if !self.open {
            return Err(StorageFailure { reason: String::from_str("the store is closed") });
        }
        let ghost before = self.kept();
        self.records.push((player_id, action, value, timestamp));
        assert(self.kept() =~= before.push((player_id@, action, value, timestamp)));
        Ok(())
    }
}

/// What every metric exposes: who, what, how much and when.
pub trait Metric<T> {
    spec fn player_spec(&self) -> Seq<char>;

    spec fn action_spec(&self) -> Action;

    spec fn value_spec(&self) -> T;

    spec fn timestamp_spec(&self) -> u32;

    /// The metric's (player id, action, value, timestamp).
    fn get_data(&self) -> (r: (String, Action, T, u32))
        ensures
            r.0@ == self.player_spec(),
            r.1 == self.action_spec(),
            r.2 == self.value_spec(),
            r.3 == self.timestamp_spec(),
    ;

    /// Hands the metric to `store`; this consumes it, so read it first.
    /// A storage failure comes back as the store reported it.
    fn save<S: MetricStore<T>>(self, store: &mut S) -> (r: Result<(), StorageFailure>)
        ensures
            old(store).took(
                final(store),
                self.player_spec(),
                self.action_spec(),
                self.value_spec(),
                self.timestamp_spec(),
                r,
            ),
    ;
}

/// Why a metric could not be built.
#[derive(Debug, PartialEq)]
pub enum MetricError {
    /// The metadata gives no timestamp.
    InvalidMetadata { player_id: String, action: Action },
}

/// Payload of a won game.
pub struct WonGameMeta {
    pub date: Option<u32>,
    pub participants: Vec<String>,
    pub results: Vec<(String, u32)>,
}

/// Payload of a card successfully put on the table.
pub struct SuccessCardToTableMeta {
    pub date: Option<u32>,
    pub participants: Vec<String>,
    pub partial_results: Vec<(String, u32)>,
}

/// The payload of a metric, one variant per kind of event that has one.
pub enum Metadata {
    WonGame(WonGameMeta),
    SuccessCardToTable(SuccessCardToTableMeta),
}

impl Metadata {
    /// The action that this payload describes.
    pub open spec fn action_of(&self) -> Action {
        match self {
            Metadata::WonGame(_) => Action::WonGame,
            Metadata::SuccessCardToTable(_) => Action::SuccessCardToTable,
        }
    }

    pub open spec fn date_of(&self) -> Option<u32> {
        match self {
            Metadata::WonGame(m) => m.date,
            Metadata::SuccessCardToTable(m) => m.date,
        }
    }

    pub fn action(&self) -> (r: Action)
        ensures
            r == self.action_of(),
    {
        match self {
            Metadata::WonGame(_) => Action::WonGame,
            Metadata::SuccessCardToTable(_) => Action::SuccessCardToTable,
        }
    }

    /// The time of the event, if the payload carries one.
    pub fn timestamp(&self) -> (r: Option<u32>)
        ensures
            r == self.date_of(),
    {
        match self {
            Metadata::WonGame(m) => m.date,
            Metadata::SuccessCardToTable(m) => m.date,
        }
    }
}

/// A metric with an integer value, built from an event's payload.
pub struct NumMetric {
    player_id: String,
    action: Action,
    value: u32,
    timestamp: u32,
    meta: Metadata,
}

impl NumMetric {
    /// The payload the metric keeps: its date is the metric's timestamp and
    /// it describes the metric's action.
    #[verifier::type_invariant]
    spec fn payload_matches(&self) -> bool {
        &&& self.meta.date_of() == Some(self.timestamp)
        &&& self.meta.action_of() == self.action
    }

    /// The event payload the metric was built from.
    pub closed spec fn meta_spec(&self) -> Metadata {
        self.meta
    }

    /// Builds the metric of one occurrence of the event that `meta` describes;
    /// fails when `meta` gives no timestamp.
    pub fn from_metadata(player_id: String, meta: Metadata) -> (r: Result<NumMetric, MetricError>)
        ensures
            match r {
                Ok(m) => {
                    &&& meta.date_of() is Some
                    &&& m.meta_spec() == meta
                    &&& m.player_spec() == player_id@
                    &&& m.action_spec() == meta.action_of()
                    &&& m.value_spec() == 1u32
                    &&& m.timestamp_spec() == meta.date_of()->Some_0
                },
                Err(MetricError::InvalidMetadata { player_id: p, action: a }) => {
                    &&& meta.date_of() is None
                    &&& p@ == player_id@
                    &&& a == meta.action_of()
                },
            },
    {
        let action = meta.action();
        match meta.timestamp() {
            Some(timestamp) => Ok(NumMetric { player_id, action, value: 1, timestamp, meta }),
            None => Err(MetricError::InvalidMetadata { player_id, action }),
        }
    }

    /// The metric of a won game at `date`.
    pub fn create_won_game(
        player_id: String,
        date: u32,
        participants: Vec<String>,
        results: Vec<(String, u32)>,
    ) -> (r: NumMetric)
        ensures
            r.player_spec() == player_id@,
            r.action_spec() == Action::WonGame,
            r.value_spec() == 1u32,
            r.timestamp_spec() == date,
            r.meta_spec() == Metadata::WonGame((WonGameMeta { date: Some(date), participants, results })),
    {
        NumMetric {
            player_id,
            action: Action::WonGame,
            value: 1,
            timestamp: date,
            meta: Metadata::WonGame(WonGameMeta { date: Some(date), participants, results }),
        }
    }

    /// The metric of a card successfully put on the table at `date`.
    pub fn create_success_card_to_table(
        player_id: String,
        date: u32,
        participants: Vec<String>,
        partial_results: Vec<(String, u32)>,
    ) -> (r: NumMetric)
        ensures
            r.player_spec() == player_id@,
            r.action_spec() == Action::SuccessCardToTable,
            r.value_spec() == 1u32,
            r.timestamp_spec() == date,
            r.meta_spec() == Metadata::SuccessCardToTable(
                (SuccessCardToTableMeta { date: Some(date), participants, partial_results }),
            ),
    {
        NumMetric {
            player_id,
            action: Action::SuccessCardToTable,
            value: 1,
            timestamp: date,
            meta: Metadata::SuccessCardToTable(
                SuccessCardToTableMeta { date: Some(date), participants, partial_results },
            ),
        }
    }

    /// The event payload the metric was built from.
    pub fn metadata(&self) -> (r: &Metadata)
        ensures
            *r == self.meta_spec(),
            r.date_of() == Some(self.timestamp_spec()),
            r.action_of() == self.action_spec(),
    {
        proof {
            use_type_invariant(self);
        }
        &self.meta
    }
}

impl Metric<u32> for NumMetric {
    closed spec fn player_spec(&self) -> Seq<char> {
        self.player_id@
    }

    closed spec fn action_spec(&self) -> Action {
        self.action
    }

    closed spec fn value_spec(&self) -> u32 {
        self.value
    }

    closed spec fn timestamp_spec(&self) -> u32 {
        self.timestamp
    }

    fn get_data(&self) -> (r: (String, Action, u32, u32)) {
        (self.player_id.clone(), self.action, self.value, self.timestamp)
    }

    fn save<S: MetricStore<u32>>(self, store: &mut S) -> (r: Result<(), StorageFailure>) {
        store.store(self.player_id, self.action, self.value, self.timestamp)
    }
}

} // verus!
