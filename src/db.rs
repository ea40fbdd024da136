//! The statements that create and drop scratch databases.
use vstd::prelude::*;

verus! {

/// `create database <name>`.
pub fn create_database_statement(dbname: &str) -> (r: String)
    ensures
        r@ == "create database "@ + dbname@,
{
    let mut s = String::from_str("create database ");
    s.append(dbname);
    s
}

/// `drop database if exists <name> (force)`: dropping a database that is not
/// there is no error, and open sessions do not keep it alive.
pub fn drop_database_statement(dbname: &str) -> (r: String)
    ensures
        r@ == "drop database if exists "@ + dbname@ + " (force)"@,
{
    let mut s = String::from_str("drop database if exists ");
    s.append(dbname);
    s.append(" (force)");
    s
}

} // verus!
