//! The persistent key-value store behind the chain, held behind trusted
//! declarations: the contents are modeled as a map from keys to values.

use vstd::prelude::*;

verus! {

#[verifier::external_type_specification]
#[verifier::external_body]
pub struct ExDb(sled::Db);

#[verifier::external_type_specification]
#[verifier::external_body]
pub struct ExSledError(sled::Error);

/// What the store holds: its map from key bytes to value bytes.
pub uninterp spec fn db_view(db: sled::Db) -> Map<Seq<u8>, Seq<u8>>;

/// Relies on sled::open: opens or creates the store at `path`. What the
/// map holds depends on the disk, so nothing is promised of the contents.
#[verifier::external_body]
pub(crate) fn open_db(path: &str) -> Result<sled::Db, sled::Error> {
    sled::open(path)
}

/// Relies on sled::Tree::get: returns the value stored at the key, if the
/// key is present.
#[verifier::external_body]
pub(crate) fn db_get(db: &sled::Db, key: &[u8]) -> (r: Result<Option<Vec<u8>>, sled::Error>)
    ensures
        r matches Ok(Some(v)) ==> db_view(*db).contains_key(key@) && v@ == db_view(*db)[key@],
        r matches Ok(None) ==> !db_view(*db).contains_key(key@),
{
    match db.get(key) {
        Ok(Some(v)) => Ok(Some(v.to_vec())),
        Ok(None) => Ok(None),
        Err(e) => Err(e),
    }
}

/// Relies on sled::Tree::insert: sets the key to the value; on success the
/// contents are the old map with that binding.
#[verifier::external_body]
pub(crate) fn db_insert(db: &mut sled::Db, key: &[u8], value: &[u8]) -> (r: Result<
    (),
    sled::Error,
>)
    ensures
        r is Ok ==> db_view(*final(db)) == db_view(*old(db)).insert(key@, value@),
{
    match db.insert(key, value) {
        Ok(_) => Ok(()),
        Err(e) => Err(e),
    }
}

/// Relies on sled::Tree::flush: forces dirty buffers to disk. The contents
/// are read through a shared borrow and stay as they are.
#[verifier::external_body]
pub(crate) fn db_flush(db: &sled::Db) -> Result<(), sled::Error> {
    match db.flush() {
        Ok(_) => Ok(()),
        Err(e) => Err(e),
    }
}

} // verus!
