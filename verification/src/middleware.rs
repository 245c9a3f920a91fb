//! The forwarding half of the signing middleware: it hands what writers send to a
//! capsule and answers with the address under which the capsule holds it.

use vstd::prelude::*;
use crate::client::{PutDataRequest, PutDataResponse, PutINodeRequest, PutINodeResponse};
use crate::server::{CapsuleError, MyDataCapsule, PutRequest};

verus! {

/// The middleware between the writers and the capsules.
#[derive(Debug, Default)]
pub struct MyMiddleware {}

impl MyMiddleware {
    /// Hands the directory entry of the request to the inode capsule at the time
    /// `timestamp` and answers with the address and the block as the capsule holds it,
    /// whether it stored the block now or held it before. Where the capsule turns the
    /// block down, so does the middleware.
    pub fn put_inode(
        &self,
        capsule: &mut MyDataCapsule,
        request: PutINodeRequest,
        timestamp: i64,
    ) -> (r: Result<PutINodeResponse, CapsuleError>)
        ensures
            final(capsule)@ == old(capsule)@.put(request.block@, timestamp),
            old(capsule)@.data.wf() ==> final(capsule)@.data.wf(),
            match r {
                Err(e) => old(capsule)@.put_error(request.block@, timestamp) == Some(e),
                Ok(response) => {
                    &&& old(capsule)@.put_error(request.block@, timestamp) is None
                    &&& response.hash@ == old(capsule)@.put_hash(request.block@, timestamp)
                    &&& response.block@ == old(capsule)@.put_block(request.block@, timestamp)
                },
            },
    {
        match capsule.put(PutRequest { block: request.block }, timestamp) {
            Ok(stored) => Ok(PutINodeResponse { hash: stored.hash, block: stored.block }),
            Err(e) => Err(e),
        }
    }

    /// Hands the file data of the request to the data capsule at the time `timestamp`
    /// and answers with the address and the block as the capsule holds it. The address
    /// of the directory entry that the data belongs to travels with the request and is
    /// not stored.
    pub fn put_data(
        &self,
        capsule: &mut MyDataCapsule,
        request: PutDataRequest,
        timestamp: i64,
    ) -> (r: Result<PutDataResponse, CapsuleError>)
        ensures
            final(capsule)@ == old(capsule)@.put(request.block@, timestamp),
            old(capsule)@.data.wf() ==> final(capsule)@.data.wf(),
            match r {
                Err(e) => old(capsule)@.put_error(request.block@, timestamp) == Some(e),
                Ok(response) => {
                    &&& old(capsule)@.put_error(request.block@, timestamp) is None
                    &&& response.hash@ == old(capsule)@.put_hash(request.block@, timestamp)
                    &&& response.block@ == old(capsule)@.put_block(request.block@, timestamp)
                },
            },
    {
        match capsule.put(PutRequest { block: request.block }, timestamp) {
            Ok(stored) => Ok(PutDataResponse { hash: stored.hash, block: stored.block }),
            Err(e) => Err(e),
        }
    }
}

} // verus!
