//! System variables.

use crate::digest::{hashed, Digest};
use crate::storage::cf::{Cf, CF_SYSVARS};
use crate::storage::database::Database;
use crate::storage::error::StorageError;
use crate::storage::store::{
    agrees, changed, outcome, put_record, put_then_get, raw, record, ErrorModel, Storage,
};
use crate::storage::write_batch::{apply, Rows};
use crate::sysvar_program::Sysvar;
use vstd::prelude::*;
use vstd::utf8::encode_utf8;

verus! {

impl<D: Database> Storage<D> {
    /// Stores a system variable under its identity.
    pub fn put_sysvar<S: Sysvar, H: Fn(&Vec<u8>) -> Digest>(&mut self, sysvar: &S, hash: H) -> (r:
        Result<(), StorageError>)
        requires
            forall|bytes: Vec<u8>| #[trigger] hash.requires((&bytes,)),
        ensures
            old(self).reliable() ==> final(self).reliable(),
            exists|id: Digest| #[trigger]
                hashed(hash, encode_utf8(S::seed()), id) && changed(
                    old(self).reliable(),
                    old(self).rows(),
                    final(self).rows(),
                    outcome(r),
                    put_record::<S>(CF_SYSVARS, id@, sysvar.model()),
                ),
    {
        let id = S::id(hash);
        self.put_record(CF_SYSVARS, id.as_bytes().as_slice(), sysvar)
    }

    /// The system variable of a type.
    pub fn get_sysvar<S: Sysvar, H: Fn(&Vec<u8>) -> Digest>(&self, hash: H) -> (r: Result<
        Option<S>,
        StorageError,
    >)
        requires
            forall|bytes: Vec<u8>| #[trigger] hash.requires((&bytes,)),
        ensures
            exists|id: Digest| #[trigger]
                hashed(hash, encode_utf8(S::seed()), id) && agrees(
                    self.reliable(),
                    outcome(r),
                    record::<S>(self.rows(), CF_SYSVARS, id@),
                ),
    {
        let id = S::id(hash);
        self.get_record::<S>(CF_SYSVARS, id.as_bytes().as_slice())
    }
}

/// A system variable that was stored by its type is what is read by its type, and nothing
/// else has changed, where the hash gives the same digest each time.
pub proof fn stored_sysvar_reads_back<S: Sysvar, H: Fn(&Vec<u8>) -> Digest>(
    rows: Rows,
    hash: H,
    put_id: Digest,
    get_id: Digest,
    m: S::M,
)
    requires
        S::fits(m),
        hashed(hash, encode_utf8(S::seed()), put_id),
        hashed(hash, encode_utf8(S::seed()), get_id),
        forall|a: Digest, b: Digest| #[trigger]
            hashed(hash, encode_utf8(S::seed()), a) && #[trigger] hashed(
                hash,
                encode_utf8(S::seed()),
                b,
            ) ==> a == b,
    ensures
        ({
            let ops = put_record::<S>(CF_SYSVARS, put_id@, m);
            let after = apply(rows, (ops->Ok_0).0);
            &&& ops is Ok
            &&& record::<S>(after, CF_SYSVARS, get_id@) == Ok::<Option<S::M>, ErrorModel>(Some(m))
            &&& forall|cf: Cf, k: Seq<u8>|
                cf != CF_SYSVARS || k != put_id@ ==> #[trigger] raw(after, cf, k) == raw(
                    rows,
                    cf,
                    k,
                )
        }),
{
    put_then_get::<S>(rows, CF_SYSVARS, put_id@, m);
    reveal_with_fuel(apply, 2);
}

} // verus!
