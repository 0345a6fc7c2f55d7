//! Answering the stats socket: which request a reader sends, and what it makes
//! of the reply.
use vstd::prelude::*;

use crate::procs::ProcsSnapshot;
use crate::stats::{change, placements_since, Metrics, MetricsModel};

verus! {

/// Requests the scheduler loop answers over the stats channels.
#[derive(Debug, Clone, Copy, PartialEq, Eq, Structural)]
pub enum StatsReq {
    Metrics,
    Procs,
}

#[derive(Debug)]
pub enum StatsRes {
    Metrics(Metrics),
    Procs(ProcsSnapshot),
}

/// A reader of the aggregate metrics: it reports what happened since it last
/// read.
#[derive(Debug)]
pub struct MetricsReader {
    prev: Metrics,
}

impl View for MetricsReader {
    type V = MetricsModel;

    /// The last reading.
    closed spec fn view(&self) -> MetricsModel {
        self.prev@
    }
}

impl MetricsReader {
    /// The request that opening a reader and each reading sends.
    pub fn request() -> (req: StatsReq)
        ensures
            req == StatsReq::Metrics,
    {
        StatsReq::Metrics
    }

    /// Opens a reader on the first reply; nothing if the reply is of another
    /// kind than asked for.
    pub fn open(reply: StatsRes) -> (reader: Option<MetricsReader>)
        ensures
            match reply {
                StatsRes::Metrics(m) => reader is Some && reader->0@ == m@,
                StatsRes::Procs(_) => reader is None,
            },
    {
        match reply {
            StatsRes::Metrics(prev) => Some(MetricsReader { prev }),
            StatsRes::Procs(_) => None,
        }
    }

    /// Whether what the reply counts since the last reading fits in 64 bits.
    pub fn has_room(&self, reply: &StatsRes) -> (yes: bool)
        ensures
            yes == (*reply matches StatsRes::Metrics(m) ==> placements_since(m@, self@)
                <= u64::MAX),
    {
        match reply {
            StatsRes::Metrics(cur) => cur.delta_fits(&self.prev),
            StatsRes::Procs(_) => true,
        }
    }

    /// What happened since the last reading; nothing, and the last reading
    /// kept, if the reply is of another kind than asked for.
    pub fn read(&mut self, reply: StatsRes) -> (delta: Option<Metrics>)
        requires
            reply matches StatsRes::Metrics(m) ==> placements_since(m@, old(self)@) <= u64::MAX,
        ensures
            match reply {
                StatsRes::Metrics(m) => {
                    &&& delta is Some
                    &&& delta->0@ == change(m@, old(self)@)
                    &&& final(self)@ == m@
                },
                StatsRes::Procs(_) => delta is None && final(self)@ == old(self)@,
            },
    {
        match reply {
            StatsRes::Metrics(cur) => {
                let delta = cur.delta(&self.prev);
                self.prev = cur;
                Some(delta)
            },
            StatsRes::Procs(_) => None,
        }
    }
}

/// The request that a reader of the procs view sends.
pub fn procs_request() -> (req: StatsReq)
    ensures
        req == StatsReq::Procs,
{
    StatsReq::Procs
}

/// The procs view in a reply; nothing if the reply is of another kind.
pub fn procs_reply(reply: StatsRes) -> (snapshot: Option<ProcsSnapshot>)
    ensures
        match reply {
            StatsRes::Procs(s) => snapshot == Some(s),
            StatsRes::Metrics(_) => snapshot is None,
        },
{
    match reply {
        StatsRes::Procs(s) => Some(s),
        StatsRes::Metrics(_) => None,
    }
}

} // verus!
