//! The account record: one row of the loaded dataset.

use vstd::prelude::*;

verus! {

/// One social-media account of the dataset.
///
/// `username` is the node key of the relationship graph and is expected to be
/// unique across the dataset; graph construction checks this. `comments` is
/// carried through but unused by the analysis.
#[derive(Debug)]
pub struct AccountRecord {
    pub username: String,
    pub country: String,
    pub followers: u32,
    pub comments: u32,
}

impl AccountRecord {
    /// Builds a record from borrowed text fields.
    pub fn new(username: &str, country: &str, followers: u32, comments: u32) -> (r: AccountRecord)
        ensures
            r.username@ == username@,
            r.country@ == country@,
            r.followers == followers,
            r.comments == comments,
    {
        AccountRecord {
            username: username.to_owned(),
            country: country.to_owned(),
            followers,
            comments,
        }
    }
}

/// Exec equality of two text values, stated over their character sequences.
pub fn str_eq(a: &str, b: &str) -> (r: bool)
    ensures
        r == (a@ == b@),
{
    let x: String = a.to_owned();
    let y: String = b.to_owned();
    x == y
}

} // verus!
