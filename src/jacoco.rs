use vstd::prelude::*;

pub mod error;
pub mod listing;
pub mod reader;

pub use error::{JacocoError, JacocoErrorModel};

verus! {

/// A decoded execution-data dump: the sessions and the per-class records,
/// each in the order of the stream.
#[derive(Clone, Debug, PartialEq)]
pub struct JacocoReport {
    session_infos: Vec<SessionInfo>,
    execution_datas: Vec<ExecutionData>,
}

/// One recording session that contributed execution data.
#[derive(Clone, Debug, PartialEq, Eq, Hash)]
pub struct SessionInfo {
    /// arbitrary session identifier
    id: String,
    /// when recording started, in milliseconds since the Unix epoch
    start: i64,
    /// when the data was collected, in milliseconds since the Unix epoch
    dump: i64,
}

/// Execution data of one class: its id, its VM name and one flag per probe.
#[derive(Clone, Debug, PartialEq, Eq, Hash)]
pub struct ExecutionData {
    /// class identifier
    id: i64,
    /// VM name
    name: String,
    /// probe data
    probes: Vec<bool>,
}

/// The value of a [`JacocoReport`].
pub struct JacocoReportModel {
    pub sessions: Seq<SessionInfoModel>,
    pub records: Seq<ExecutionDataModel>,
}

/// The value of a [`SessionInfo`].
pub struct SessionInfoModel {
    pub id: Seq<char>,
    pub start: i64,
    pub dump: i64,
}

impl View for SessionInfo {
    type V = SessionInfoModel;

    closed spec fn view(&self) -> SessionInfoModel {
        SessionInfoModel { id: self.id@, start: self.start, dump: self.dump }
    }
}

impl View for JacocoReport {
    type V = JacocoReportModel;

    closed spec fn view(&self) -> JacocoReportModel {
        JacocoReportModel {
            sessions: self.session_infos@.map_values(|s: SessionInfo| s@),
            records: self.execution_datas@.map_values(|e: ExecutionData| e@),
        }
    }
}

/// The value of an [`ExecutionData`].
pub struct ExecutionDataModel {
    pub id: i64,
    pub name: Seq<char>,
    pub probes: Seq<bool>,
}

impl View for ExecutionData {
    type V = ExecutionDataModel;

    closed spec fn view(&self) -> ExecutionDataModel {
        ExecutionDataModel { id: self.id, name: self.name@, probes: self.probes@ }
    }
}

/// Number of `true` flags in `s`.
pub open spec fn count_true(s: Seq<bool>) -> nat
    decreases s.len(),
{
    if s.len() == 0 {
        0
    } else {
        count_true(s.drop_last()) + if s.last() {
            1nat
        } else {
            0nat
        }
    }
}

/// Elementwise disjunction of two flag sequences of one length.
pub open spec fn or_probes(a: Seq<bool>, b: Seq<bool>) -> Seq<bool> {
    Seq::new(a.len(), |i: int| a[i] || b[i])
}

/// The error with which merging `a` and `b` fails, if it fails.
pub open spec fn record_merge_error(a: ExecutionDataModel, b: ExecutionDataModel) -> Option<
    JacocoErrorModel,
> {
    if a.id != b.id {
        Some(JacocoErrorModel::IllegalStateDifferentIds(a.id, b.id))
    } else if a.name != b.name {
        Some(JacocoErrorModel::IllegalStateDifferentNames(a.name, b.name, a.id))
    } else if a.probes.len() != b.probes.len() {
        Some(JacocoErrorModel::IllegalStateIncompatibleProbes(a.name, a.id))
    } else {
        None
    }
}

impl ExecutionData {
    /// Combines two records of one class: the probes of the result are the
    /// elementwise `or` of both, so coverage never shrinks. Fails where the
    /// ids, the names or the probe counts differ, checked in that order.
    pub fn try_merge(self, other: Self) -> (r: Result<Self, JacocoError>)
        ensures
            match r {
                Ok(m) => record_merge_error(self@, other@) is None && m@.id == self@.id
                    && m@.name == self@.name && m@.probes == or_probes(
                    self@.probes,
                    other@.probes,
                ),
                Err(e) => record_merge_error(self@, other@) == Some(e@),
            },
    {
        if self.id != other.id {
            return Err(JacocoError::IllegalStateDifferentIds(self.id, other.id));
        }
        if self.name != other.name {
            return Err(JacocoError::IllegalStateDifferentNames(self.name, other.name, self.id));
        }
        if self.probes.len() != other.probes.len() {
            return Err(JacocoError::IllegalStateIncompatibleProbes(self.name, self.id));
        }
        let mut probes: Vec<bool> = Vec::with_capacity(self.probes.len());
        let mut i: usize = 0;
        while i < self.probes.len()
            invariant
                self.probes@.len() == other.probes@.len(),
                i <= self.probes@.len(),
                probes@ == or_probes(self.probes@, other.probes@).subrange(0, i as int),
            decreases self.probes@.len() - i,
        {
            probes.push(self.probes[i] || other.probes[i]);
            i += 1;
        }
        assert(probes@ == or_probes(self.probes@, other.probes@));
        Ok(ExecutionData { id: self.id, name: self.name, probes })
    }
}

/// The values of a sequence of sessions.
pub open spec fn sessions_view(s: Seq<SessionInfo>) -> Seq<SessionInfoModel> {
    s.map_values(|x: SessionInfo| x@)
}

/// The values of a sequence of records.
pub open spec fn records_view(s: Seq<ExecutionData>) -> Seq<ExecutionDataModel> {
    s.map_values(|x: ExecutionData| x@)
}

impl JacocoReport {
    pub fn new(session_infos: Vec<SessionInfo>, execution_datas: Vec<ExecutionData>) -> (r: Self)
        ensures
            r@ == (JacocoReportModel {
                sessions: sessions_view(session_infos@),
                records: records_view(execution_datas@),
            }),
    {
        JacocoReport { session_infos, execution_datas }
    }

    pub fn session_infos(&self) -> (r: &Vec<SessionInfo>)
        ensures
            sessions_view(r@) == self@.sessions,
    {
        &self.session_infos
    }

    pub fn session_infos_mut(&mut self) -> (r: &Vec<SessionInfo>)
        ensures
            sessions_view(r@) == old(self)@.sessions,
    {
        &self.session_infos
    }

    pub fn execution_datas(&self) -> (r: &Vec<ExecutionData>)
        ensures
            records_view(r@) == self@.records,
    {
        &self.execution_datas
    }

    pub fn execution_datas_mut(&mut self) -> (r: &Vec<ExecutionData>)
        ensures
            records_view(r@) == old(self)@.records,
    {
        &self.execution_datas
    }
}

impl SessionInfo {
    pub fn new(id: String, start: i64, dump: i64) -> (r: Self)
        ensures
            r@ == (SessionInfoModel { id: id@, start, dump }),
    {
        SessionInfo { id, start, dump }
    }

    /// The session's identifier.
    pub fn id(&self) -> (r: &String)
        ensures
            r@ == self@.id,
    {
        &self.id
    }

    /// When recording started, in milliseconds since the Unix epoch.
    pub fn start_millis(&self) -> (r: i64)
        ensures
            r == self@.start,
    {
        self.start
    }

    /// When the data was collected, in milliseconds since the Unix epoch.
    pub fn dump_millis(&self) -> (r: i64)
        ensures
            r == self@.dump,
    {
        self.dump
    }
}

impl ExecutionData {
    pub fn new(id: i64, name: String, probes: Vec<bool>) -> (r: Self)
        ensures
            r@ == (ExecutionDataModel { id, name: name@, probes: probes@ }),
    {
        ExecutionData { id, name, probes }
    }

    pub fn id(&self) -> (r: &i64)
        ensures
            *r == self@.id,
    {
        &self.id
    }

    pub fn name(&self) -> (r: &String)
        ensures
            r@ == self@.name,
    {
        &self.name
    }

    pub fn probes(&self) -> (r: &Vec<bool>)
        ensures
            r@ == self@.probes,
    {
        &self.probes
    }

    /// Number of probes that were hit.
    pub fn covered_lines(&self) -> (r: usize)
        ensures
            r == count_true(self@.probes),
    {
        let mut n: usize = 0;
        let mut i: usize = 0;
        while i < self.probes.len()
            invariant
                i <= self.probes@.len(),
                n == count_true(self.probes@.subrange(0, i as int)),
                n <= i,
            decreases self.probes@.len() - i,
        {
            assert(self.probes@.subrange(0, i + 1).drop_last() =~= self.probes@.subrange(
                0,
                i as int,
            ));
            if self.probes[i] {
                n += 1;
            }
            i += 1;
        }
        assert(self.probes@.subrange(0, i as int) =~= self.probes@);
        n
    }
}

} // verus!
