//! Read-only snapshots returned by listing and status queries, and the flat
//! status types that pair an outcome flag with a message for callers that
//! report results rather than branch on them.

use vstd::prelude::*;

use crate::errors::GedsError;

verus! {

/// A read-only snapshot of one listed object: its key, its size, and whether
/// it stands for a directory.
#[derive(Debug)]
pub struct GEDSFileStatus {
    pub key: String,
    pub size: usize,
    pub is_directory: bool,
}

impl GEDSFileStatus {
    /// The triple this snapshot denotes: key, size, directory flag.
    pub open spec fn model(&self) -> (Seq<char>, int, bool) {
        (self.key@, self.size as int, self.is_directory)
    }
}

/// The triples a listing denotes, in listing order.
pub open spec fn status_models(s: Seq<GEDSFileStatus>) -> Seq<(Seq<char>, int, bool)> {
    s.map_values(|st: GEDSFileStatus| st.model())
}

/// A flat outcome: `ok` with an empty message on success, or the failure
/// message otherwise.
pub struct Status {
    pub message: String,
    pub ok: bool,
}

impl Status {
    /// The flat form of a unit result.
    pub fn of_result(r: &Result<(), GedsError>) -> (s: Status)
        ensures
            s.ok == (r is Ok),
            r is Ok ==> s.message@ == Seq::<char>::empty(),
            r is Err ==> s.message@ == r->Err_0.message@,
    {
        match r {
            Ok(_) => Status { message: String::new(), ok: true },
            Err(e) => Status { message: e.message.clone(), ok: false },
        }
    }
}

/// A flat outcome paired with a byte count, as a read result reports it; the
/// count is zero on failure.
pub struct StatusOrUsize {
    pub status: Status,
    pub value: usize,
}

impl StatusOrUsize {
    /// The flat form of a byte-count result.
    pub fn of_result(r: &Result<usize, GedsError>) -> (s: StatusOrUsize)
        ensures
            s.status.ok == (r is Ok),
            r is Ok ==> s.value == r->Ok_0 && s.status.message@ == Seq::<char>::empty(),
            r is Err ==> s.value == 0 && s.status.message@ == r->Err_0.message@,
    {
        match r {
            Ok(n) => StatusOrUsize { status: Status { message: String::new(), ok: true }, value: *n },
            Err(e) => StatusOrUsize {
                status: Status { message: e.message.clone(), ok: false },
                value: 0,
            },
        }
    }
}

/// A flat outcome paired with one status snapshot; the snapshot is empty on
/// failure.
pub struct StatusOrGEDSFileStatus {
    pub status: Status,
    pub value: GEDSFileStatus,
}

impl StatusOrGEDSFileStatus {
    /// The flat form of a status-query result.
    pub fn of_result(r: Result<GEDSFileStatus, GedsError>) -> (s: StatusOrGEDSFileStatus)
        ensures
            s.status.ok == (r is Ok),
            r is Ok ==> s.value == r->Ok_0 && s.status.message@ == Seq::<char>::empty(),
            r is Err ==> s.value.key@ == Seq::<char>::empty() && s.value.size == 0
                && !s.value.is_directory && s.status.message@ == r->Err_0.message@,
    {
        match r {
            Ok(v) => StatusOrGEDSFileStatus {
                status: Status { message: String::new(), ok: true },
                value: v,
            },
            Err(e) => StatusOrGEDSFileStatus {
                status: Status { message: e.message.clone(), ok: false },
                value: GEDSFileStatus { key: String::new(), size: 0, is_directory: false },
            },
        }
    }
}

/// A flat outcome paired with a listing; the listing is empty on failure.
pub struct StatusOrVecGEDSFileStatus {
    pub status: Status,
    pub value: Vec<GEDSFileStatus>,
}

impl StatusOrVecGEDSFileStatus {
    /// The flat form of a listing result.
    pub fn of_result(r: Result<Vec<GEDSFileStatus>, GedsError>) -> (s: StatusOrVecGEDSFileStatus)
        ensures
            s.status.ok == (r is Ok),
            r is Ok ==> s.value == r->Ok_0 && s.status.message@ == Seq::<char>::empty(),
            r is Err ==> s.value@ == Seq::<GEDSFileStatus>::empty() && s.status.message@
                == r->Err_0.message@,
    {
        match r {
            Ok(v) => StatusOrVecGEDSFileStatus {
                status: Status { message: String::new(), ok: true },
                value: v,
            },
            Err(e) => {
                let s = StatusOrVecGEDSFileStatus {
                    status: Status { message: e.message.clone(), ok: false },
                    value: Vec::new(),
                };
                proof {
                    assert(s.value@ =~= Seq::<GEDSFileStatus>::empty());
                }
                s
            },
        }
    }
}

} // verus!
