//! The control protocol: one request per connection, one response.
use vstd::prelude::*;
use vstd::string::*;

use crate::walker::{EvalJob, EvalTask};

verus! {

/// The health the server reports.
#[derive(Clone, Copy, Debug, PartialEq, Eq, Structural)]
pub enum ServerStatus {
    Active,
    Degraded,
    Dead,
}

#[derive(Debug)]
pub struct InfoResponse {
    pub status: ServerStatus,
    pub version: String,
}

/// Ask for a derivation, by store path, to be built.
#[derive(Debug)]
pub struct BuildRequest {
    pub drv_path: String,
}

#[derive(Debug)]
pub struct BuildResponse {
    pub enqueued: bool,
}

/// Ask for a job file, by absolute path, to be evaluated.
#[derive(Debug)]
pub struct JobRequest {
    pub file_path: String,
}

#[derive(Debug)]
pub struct JobResponse {
    pub enqueued: bool,
}

#[derive(Debug)]
pub enum ClientRequest {
    Info,
    Build(BuildRequest),
    Job(JobRequest),
}

#[derive(Debug)]
pub enum ClientResponse {
    Info(InfoResponse),
    Build(BuildResponse),
    Job(JobResponse),
}

/// The version the server reports.
pub open spec fn server_version() -> Seq<char> {
    seq!['0', '.', '1', '.', '0']
}

/// The response to `request`, with the task to hand to the dispatcher, if any. `Info` has no
/// side effect; `Build` and `Job` are accepted, which means enqueued, not done.
pub fn handle_request(request: ClientRequest) -> (r: (ClientResponse, Option<EvalTask>))
    ensures
        request is Info ==> r.1 is None && r.0 is Info && r.0->Info_0.status == ServerStatus::Active
            && r.0->Info_0.version@ == server_version(),
        request is Build ==> r.0 is Build && r.0->Build_0.enqueued && r.1 is Some && r.1->0 is TraverseDrv
            && r.1->0->TraverseDrv_0@ == request->Build_0.drv_path@,
        request is Job ==> r.0 is Job && r.0->Job_0.enqueued && r.1 is Some && r.1->0 is Job
            && r.1->0->Job_0.file_path@ == request->Job_0.file_path@,
{
    match request {
        ClientRequest::Info => {
            let version = String::from_str("0.1.0");
            proof {
                reveal_strlit("0.1.0");
                assert(version@ =~= server_version());
            }
            (ClientResponse::Info(InfoResponse { status: ServerStatus::Active, version }), None)
        },
        ClientRequest::Build(b) => (
            ClientResponse::Build(BuildResponse { enqueued: true }),
            Some(EvalTask::TraverseDrv(b.drv_path)),
        ),
        ClientRequest::Job(j) => (
            ClientResponse::Job(JobResponse { enqueued: true }),
            Some(EvalTask::Job(EvalJob { file_path: j.file_path })),
        ),
    }
}

} // verus!
