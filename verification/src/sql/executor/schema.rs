//! Executors that change schemas.
use vstd::prelude::*;

use super::{ResultSet, ResultSetModel};
use crate::error::{Error, Result};
use crate::sql::engine::kv::{drop_unconflicted, table_dropped, table_key, table_read, KVTransaction};
use crate::sql::codec::table_bytes;
use crate::sql::schema::{table_valid, Table, TableModel};
use crate::storage::engine::Engine as StorageEngine;
use crate::storage::mvcc::{after_write, store_wf, write_conflict, wrote_own, Mvcc, TransactionState};

verus! {

/// Creating table `t` took the store from `c0` to `c1`: no table had its
/// name, it is valid, and its schema was written.
pub open spec fn table_created(
    c0: Map<Seq<u8>, Seq<u8>>,
    c1: Map<Seq<u8>, Seq<u8>>,
    st: TransactionState,
    t: TableModel,
) -> bool {
    &&& table_read(c0, st, t.name) == Some(None::<TableModel>)
    &&& table_valid(t)
    &&& c1 == after_write(c0, st, table_key(t.name), Some(table_bytes(t)))
}

/// Creates a table.
pub struct CreateTable {
    pub schema: Table,
}

impl CreateTable {
    pub fn new(schema: Table) -> (c: Self)
        ensures
            c.schema == schema,
    {
        CreateTable { schema }
    }

    /// Creates the table; its name.
    pub fn execute<E: StorageEngine>(self, kv: &mut Mvcc<E>, txn: &KVTransaction) -> (r: Result<ResultSet>)
        requires
            old(kv).wf(),
        ensures
            final(kv).wf(),
            final(kv).infallible() == old(kv).infallible(),
            r matches Ok(o) ==> table_created(old(kv).contents(), final(kv).contents(), txn.state(), self.schema@)
                && o@ == (ResultSetModel::CreateTable { table_name: self.schema@.name }),
            table_read(old(kv).contents(), txn.state(), self.schema@.name) matches Some(Some(_)) ==> r is Err,
            !table_valid(self.schema@) ==> r is Err,
            old(kv).infallible() && store_wf(old(kv).contents()) && table_read(
                old(kv).contents(),
                txn.state(),
                self.schema@.name,
            ) == Some(None::<TableModel>) && table_valid(self.schema@) && !write_conflict(
                old(kv).contents(),
                txn.state(),
                table_key(self.schema@.name),
            ) ==> r is Ok,
            r is Ok && store_wf(old(kv).contents()) ==> store_wf(final(kv).contents()),
            old(kv).infallible() && store_wf(old(kv).contents()) ==> wrote_own(
                old(kv).contents(),
                final(kv).contents(),
                txn.state(),
            ),
            old(kv).infallible() && store_wf(old(kv).contents()) && (table_read(
                old(kv).contents(),
                txn.state(),
                self.schema@.name,
            ) matches Some(Some(_))) ==> (r matches Err(Error::Internal(m)) && m@ == "table "@
                + self.schema@.name + " already exists"@),
    {
        let table_name = self.schema.name.clone();
        txn.create_table(kv, self.schema)?;
        Ok(ResultSet::CreateTable { table_name })
    }
}

/// Drops a table.
pub struct DropTable {
    pub table_name: String,
}

impl DropTable {
    pub fn new(table_name: String) -> (d: Self)
        ensures
            d.table_name == table_name,
    {
        DropTable { table_name }
    }

    /// Drops the table; its name.
    pub fn execute<E: StorageEngine>(self, kv: &mut Mvcc<E>, txn: &KVTransaction) -> (r: Result<ResultSet>)
        requires
            old(kv).wf(),
        ensures
            final(kv).wf(),
            final(kv).infallible() == old(kv).infallible(),
            r matches Ok(o) ==> o@ == (ResultSetModel::DropTable { table_name: self.table_name@ })
                && table_dropped(old(kv).contents(), final(kv).contents(), txn.state(), self.table_name@),
            table_read(old(kv).contents(), txn.state(), self.table_name@) == Some(None::<TableModel>) ==> r is Err,
            old(kv).infallible() && store_wf(old(kv).contents()) && (table_read(
                old(kv).contents(),
                txn.state(),
                self.table_name@,
            ) matches Some(Some(_))) && drop_unconflicted(old(kv).contents(), txn.state(), self.table_name@)
                ==> r is Ok,
    {
        txn.drop_table(kv, self.table_name.clone())?;
        Ok(ResultSet::DropTable { table_name: self.table_name })
    }
}

} // verus!
