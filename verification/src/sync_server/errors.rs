//! The errors that the server answers requests with.
use vstd::prelude::*;

verus! {

/// An error message and the messages of the errors that caused it, outermost
/// first, as the server reports them.
#[derive(Debug, Clone, PartialEq)]
pub struct SerializedError {
    pub message: String,
    pub causes: Vec<String>,
}

/// The errors of the server, by the kind of answer they get.
#[derive(Debug)]
pub enum SyncServerError {
    InitError(SerializedError),
    ClientError(SerializedError),
    ServerError(SerializedError),
    NotFound(SerializedError),
    Unauthorized(SerializedError),
    PermissionDeniedError(SerializedError),
}

/// The report that an error carries.
pub open spec fn report_of(error: SyncServerError) -> SerializedError {
    match error {
        SyncServerError::InitError(e) => e,
        SyncServerError::ClientError(e) => e,
        SyncServerError::ServerError(e) => e,
        SyncServerError::NotFound(e) => e,
        SyncServerError::Unauthorized(e) => e,
        SyncServerError::PermissionDeniedError(e) => e,
    }
}

/// A copy of a report.
fn copy_report(report: &SerializedError) -> (r: SerializedError)
    ensures
        r.message@ == report.message@,
        r.causes@.map_values(|c: String| c@) == report.causes@.map_values(|c: String| c@),
{
    let mut causes: Vec<String> = Vec::new();
    let mut i: usize = 0;
    while i < report.causes.len()
        invariant
            0 <= i <= report.causes@.len(),
            causes@.map_values(|c: String| c@) == report.causes@.take(i as int).map_values(
                |c: String| c@,
            ),
        decreases report.causes.len() - i,
    {
        let ghost before = causes@;
        let copy = report.causes[i].clone();
        causes.push(copy);
        proof {
            assert(report.causes@.take(i + 1) =~= report.causes@.take(i as int).push(
                report.causes@[i as int],
            ));
            assert(causes@ =~= before.push(copy));
            assert(causes@.map_values(|c: String| c@) =~= before.map_values(|c: String| c@).push(copy@));
            assert(report.causes@.take(i + 1).map_values(|c: String| c@) =~= report.causes@.take(i as int).map_values(|c: String| c@).push(report.causes@[i as int]@));
        }
        i = i + 1;
    }
    proof {
        assert(report.causes@.take(i as int) =~= report.causes@);
    }
    SerializedError { message: report.message.clone(), causes }
}

/// The HTTP status that an error is answered with.
pub open spec fn status_of(error: SyncServerError) -> u16 {
    match error {
        SyncServerError::InitError(_) => 500,
        SyncServerError::ClientError(_) => 400,
        SyncServerError::ServerError(_) => 500,
        SyncServerError::NotFound(_) => 404,
        SyncServerError::Unauthorized(_) => 401,
        SyncServerError::PermissionDeniedError(_) => 403,
    }
}

impl SyncServerError {
    /// The HTTP status that the error is answered with: internal server
    /// error for errors of starting or running the server, bad request,
    /// not found, unauthorized and forbidden for the others.
    pub fn status_code(&self) -> (code: u16)
        ensures
            code == status_of(*self),
    {
        match self {
            SyncServerError::InitError(_) => 500,
            SyncServerError::ClientError(_) => 400,
            SyncServerError::ServerError(_) => 500,
            SyncServerError::NotFound(_) => 404,
            SyncServerError::Unauthorized(_) => 401,
            SyncServerError::PermissionDeniedError(_) => 403,
        }
    }

    /// The message and causes of the error, as sent to the client.
    pub fn serialize(&self) -> (r: SerializedError)
        ensures
            r.message@ == report_of(*self).message@,
            r.causes@.map_values(|c: String| c@) == report_of(*self).causes@.map_values(
                |c: String| c@,
            ),
    {
        match self {
            SyncServerError::InitError(error) => copy_report(error),
            SyncServerError::ClientError(error) => copy_report(error),
            SyncServerError::ServerError(error) => copy_report(error),
            SyncServerError::NotFound(error) => copy_report(error),
            SyncServerError::Unauthorized(error) => copy_report(error),
            SyncServerError::PermissionDeniedError(error) => copy_report(error),
        }
    }
}

/// An error of starting the server.
pub fn init_error(error: SerializedError) -> (r: SyncServerError)
    ensures
        r == SyncServerError::InitError(error),
{
    SyncServerError::InitError(error)
}

/// An error on the server's side.
pub fn server_error(error: SerializedError) -> (r: SyncServerError)
    ensures
        r == SyncServerError::ServerError(error),
{
    SyncServerError::ServerError(error)
}

/// An error in the client's request.
pub fn client_error(error: SerializedError) -> (r: SyncServerError)
    ensures
        r == SyncServerError::ClientError(error),
{
    SyncServerError::ClientError(error)
}

/// A request for something that does not exist.
pub fn not_found_error(error: SerializedError) -> (r: SyncServerError)
    ensures
        r == SyncServerError::NotFound(error),
{
    SyncServerError::NotFound(error)
}

/// A request without valid credentials.
pub fn unauthorized_error(error: SerializedError) -> (r: SyncServerError)
    ensures
        r == SyncServerError::Unauthorized(error),
{
    SyncServerError::Unauthorized(error)
}

/// A request for something that the user may not access.
pub fn permission_denied_error(error: SerializedError) -> (r: SyncServerError)
    ensures
        r == SyncServerError::PermissionDeniedError(error),
{
    SyncServerError::PermissionDeniedError(error)
}

/// A report of a single message without causes.
pub fn message_error(message: String) -> (r: SerializedError)
    ensures
        r.message@ == message@,
        r.causes@.len() == 0,
{
    SerializedError { message, causes: Vec::new() }
}

} // verus!
