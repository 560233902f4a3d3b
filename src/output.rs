use vstd::prelude::*;

verus! {

/// How a job run ended.
#[derive(Debug)]
pub enum Output {
    /// Every target was produced.
    Done { duration: std::time::Duration },
    /// A node returned a fatal error.
    NodeFailed { duration: std::time::Duration, name: String, error: String },
    /// A node's task faulted at run time.
    NodePanic { duration: std::time::Duration, name: String, error: String },
    /// The cancellation handle fired while work was outstanding.
    Stopped { duration: std::time::Duration },
}

impl Output {
    /// Time from the start of the job to the moment it ended.
    pub fn duration(&self) -> (r: std::time::Duration)
        ensures
            r == self.duration_spec(),
    {
        match self {
            Output::Done { duration } => *duration,
            Output::NodeFailed { duration, .. } => *duration,
            Output::NodePanic { duration, .. } => *duration,
            Output::Stopped { duration } => *duration,
        }
    }

    pub open spec fn duration_spec(&self) -> std::time::Duration {
        match self {
            Output::Done { duration } => *duration,
            Output::NodeFailed { duration, .. } => *duration,
            Output::NodePanic { duration, .. } => *duration,
            Output::Stopped { duration } => *duration,
        }
    }

    pub fn is_done(&self) -> (r: bool)
        ensures
            r == self is Done,
    {
        matches!(self, Output::Done { .. })
    }

    pub fn is_stopped(&self) -> (r: bool)
        ensures
            r == self is Stopped,
    {
        matches!(self, Output::Stopped { .. })
    }

    pub fn is_node_failed(&self) -> (r: bool)
        ensures
            r == self is NodeFailed,
    {
        matches!(self, Output::NodeFailed { .. })
    }

    pub fn is_node_panic(&self) -> (r: bool)
        ensures
            r == self is NodePanic,
    {
        matches!(self, Output::NodePanic { .. })
    }
}

} // verus!
