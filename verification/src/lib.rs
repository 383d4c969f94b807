pub mod clock;
pub mod report;
pub mod store;
pub mod time;

use vstd::prelude::*;

verus! {

/// File name of the session store in the working directory.
pub fn get_db_path() -> (r: String)
    ensures
        r@ == "walrus.db"@,
{
    "walrus.db".to_string()
}

} // verus!
