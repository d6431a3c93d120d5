//! The file endpoint's rules. The endpoint serves per-user trees under
//! `./fs/{name}/`, authorized by a 128-bit key that must be a connected
//! client's id: reads are open to any authorized caller, writes and
//! deletes only to the tree's owner, and uploads are capped. The byte
//! moving itself is a collaborator outside the library; what stands here
//! is every decision the endpoint takes.

use vstd::prelude::*;
use vstd::string::StringExecFns;

use crate::concierge::Concierge;

verus! {

/// What a file request can fail with.
#[derive(Debug, Clone, Copy, PartialEq, Eq)]
pub enum FsError {
    Unknown,
    Encoding,
    FileNotFound,
    IoError,
    NotAFile,
    Forbidden,
    BadAuthorization,
}

/// The upload size cap: two binary megabytes.
pub const MAX_UPLOAD_BYTES: u64 = 2097152;

/// The root of a client's file tree.
pub fn base_path(name: &str) -> (r: String)
    ensures
        r@ == "./fs/"@ + name@,
{
    let mut buf = "./fs/".to_owned();
    buf.append(name);
    buf
}

/// Whether an upload body fits under the cap.
pub fn upload_size_ok(len: u64) -> (r: bool)
    ensures
        r == (len <= MAX_UPLOAD_BYTES),
{
    len <= MAX_UPLOAD_BYTES
}

/// A read is authorized for any key that is a connected client's id,
/// whatever tree it reads from.
pub fn authorize_read(concierge: &Concierge, auth: u128) -> (r: Result<(), FsError>)
    requires
        concierge@.wf(),
    ensures
        r is Ok <==> concierge@.has_client(auth),
        r is Err ==> r == Err::<(), FsError>(FsError::BadAuthorization),
{
    match concierge.resolve_uuid(auth) {
        Some(_) => Ok(()),
        None => Err(FsError::BadAuthorization),
    }
}

/// A write or delete is authorized only when the key belongs to a
/// connected client whose name owns the tree.
pub fn authorize_owner(concierge: &Concierge, auth: u128, owner_name: &String) -> (r: Result<
    (),
    FsError,
>)
    requires
        concierge@.wf(),
    ensures
        !concierge@.has_client(auth) ==> r == Err::<(), FsError>(FsError::BadAuthorization),
        concierge@.has_client(auth) && concierge@.client(auth).name != owner_name@ ==> r == Err::<
            (),
            FsError,
        >(FsError::Forbidden),
        concierge@.has_client(auth) && concierge@.client(auth).name == owner_name@ ==> r is Ok,
{
    match concierge.resolve_uuid(auth) {
        None => Err(FsError::BadAuthorization),
        Some(name) => {
            if name == *owner_name {
                Ok(())
            } else {
                Err(FsError::Forbidden)
            }
        },
    }
}

/// Where one part of a multipart upload lands, given the destination's
/// parent directory (with its trailing separator) and file name: a part
/// that carries its own file name is written beside the destination
/// under that name; one that does not is written to the destination
/// itself.
pub fn multipart_target(parent: &str, file_name: &str, part_filename: &Option<String>) -> (r:
    String)
    ensures
        part_filename matches Some(n) ==> r@ == parent@ + n@,
        part_filename is None ==> r@ == parent@ + file_name@,
{
    let mut buf = parent.to_owned();
    match part_filename {
        Some(n) => buf.append(n.as_str()),
        None => buf.append(file_name),
    }
    buf
}

/// The whole decision of a download request, given what the filesystem
/// reported about the path: authorization first, then the path's
/// encoding, then that it names an existing regular file.
pub fn handle_file_get(
    concierge: &Concierge,
    auth: u128,
    encoding_ok: bool,
    path_exists: bool,
    is_regular_file: bool,
) -> (r: Result<(), FsError>)
    requires
        concierge@.wf(),
    ensures
        !concierge@.has_client(auth) ==> r == Err::<(), FsError>(FsError::BadAuthorization),
        concierge@.has_client(auth) && !encoding_ok ==> r == Err::<(), FsError>(FsError::Encoding),
        concierge@.has_client(auth) && encoding_ok && !path_exists ==> r == Err::<(), FsError>(
            FsError::FileNotFound,
        ),
        concierge@.has_client(auth) && encoding_ok && path_exists && !is_regular_file ==> r
            == Err::<(), FsError>(FsError::NotAFile),
        concierge@.has_client(auth) && encoding_ok && path_exists && is_regular_file ==> r is Ok,
{
    match authorize_read(concierge, auth) {
        Err(e) => Err(e),
        Ok(()) => {
            if !encoding_ok {
                Err(FsError::Encoding)
            } else if !path_exists {
                Err(FsError::FileNotFound)
            } else if !is_regular_file {
                Err(FsError::NotAFile)
            } else {
                Ok(())
            }
        },
    }
}

} // verus!
