//! The SQL engine: sessions that run statements, each in a transaction.
use vstd::prelude::*;

use crate::error::{Error, Result};
use crate::sql::executor::{exec_rel, execute_node, join_strings, join_text, node_runs, ResultSet, ResultSetModel};
use crate::sql::parser::ast::{names_view, Statement};
use crate::sql::parser::grammar::{is_data_statement, lemma_parse_kinds, parse_spec, StatementModel};
use crate::sql::parser::Parser;
use crate::sql::plan::planner::{lemma_plan_model, plan_model, Planner};
use crate::sql::plan::{Node, NodeModel};
use crate::sql::schema::table_text;
use crate::storage::engine::Engine as StorageEngine;
use crate::storage::mvcc::{after_commit, after_rollback, next_version, own_writes, store_wf, MvccTransaciton, TransactionState};
use crate::storage::mvcc_laws::law_begin_keeps_store_wf;
use crate::sql::schema::TableModel;
use kv::{decode_names, scan_values, table_read, tables_prefix, KVEngine, KVTransaction};
use crate::storage::mvcc::{is_mvcc_scan, ScanResult};

pub mod kv;

verus! {

/// Running statement `m` in a transaction of its own took the store from
/// `c0` to `c1` and gave `out`: the transaction began, the statement's plan
/// ran in it, and it committed.
pub open spec fn ran_alone(
    c0: Map<Seq<u8>, Seq<u8>>,
    c1: Map<Seq<u8>, Seq<u8>>,
    m: StatementModel,
    out: ResultSetModel,
) -> bool {
    exists|t: MvccTransaciton, cb: Map<Seq<u8>, Seq<u8>>, n: NodeModel, cr: Map<Seq<u8>, Seq<u8>>|
        #[trigger] ran_in_began(c0, c1, m, out, t, cb, n, cr)
}

/// The steps of `ran_alone`: `t` began on `c0`, leaving `cb`; the plan `n`
/// of `m` ran from `cb` to `cr`; the commit of `t` left `c1`.
pub open spec fn ran_in_began(
    c0: Map<Seq<u8>, Seq<u8>>,
    c1: Map<Seq<u8>, Seq<u8>>,
    m: StatementModel,
    out: ResultSetModel,
    t: MvccTransaciton,
    cb: Map<Seq<u8>, Seq<u8>>,
    n: NodeModel,
    cr: Map<Seq<u8>, Seq<u8>>,
) -> bool {
    &&& t.began(c0, cb)
    &&& plan_model(cb, t.state(), m) == Some(n)
    &&& exec_rel(cb, cr, t.state(), n, out)
    &&& c1 == after_commit(cr, t.state().version)
}

/// Running statement `m` in the open transaction `st` took the store from
/// `c0` to `c1` and gave `out`.
pub open spec fn ran_in(
    c0: Map<Seq<u8>, Seq<u8>>,
    c1: Map<Seq<u8>, Seq<u8>>,
    st: TransactionState,
    m: StatementModel,
    out: ResultSetModel,
) -> bool {
    plan_model(c0, st, m) matches Some(n) && exec_rel(c0, c1, st, n, out)
}

/// The steps of `failed_alone`: `t` began on `c0`, leaving `cb`; where `m`
/// has no plan there, the store was left so; else its plan failed while
/// running, and what the transaction wrote, and nothing else, was rolled
/// back.
pub open spec fn failed_in_began(
    c0: Map<Seq<u8>, Seq<u8>>,
    c1: Map<Seq<u8>, Seq<u8>>,
    m: StatementModel,
    t: MvccTransaciton,
    cb: Map<Seq<u8>, Seq<u8>>,
) -> bool {
    &&& t.began(c0, cb)
    &&& match plan_model(cb, t.state(), m) {
        None => c1 == cb,
        Some(_) => exists|cr: Map<Seq<u8>, Seq<u8>>|
            #[trigger] own_writes(cb, cr, t.state().version) && c1 == after_rollback(cr, t.state().version),
    }
}

/// Statement `m`, run in a transaction of its own, failed and took the store
/// from `c0` to `c1`.
pub open spec fn failed_alone(c0: Map<Seq<u8>, Seq<u8>>, c1: Map<Seq<u8>, Seq<u8>>, m: StatementModel) -> bool {
    exists|t: MvccTransaciton, cb: Map<Seq<u8>, Seq<u8>>| #[trigger] failed_in_began(c0, c1, m, t, cb)
}

/// Running data statement `m` on store `c0` succeeds: in the open
/// transaction `st`, or, with none open, in each transaction that can begin
/// on `c0`, the statement has a plan, and the plan runs.
pub open spec fn statement_runs(
    c0: Map<Seq<u8>, Seq<u8>>,
    open: Option<TransactionState>,
    m: StatementModel,
) -> bool {
    match open {
        Some(st) => plan_model(c0, st, m) matches Some(n) && node_runs(c0, st, n),
        None => next_version(c0) != Some(u64::MAX) && forall|t: MvccTransaciton, cb: Map<Seq<u8>, Seq<u8>>|
            #[trigger] t.began(c0, cb) ==> (plan_model(cb, t.state(), m) matches Some(n) && node_runs(
                cb,
                t.state(),
                n,
            )),
    }
}

/// Data statement `m` has no plan on store `c0`: in the open transaction
/// `st`, or, with none open, in any transaction that can begin on `c0`.
pub open spec fn statement_unplanned(
    c0: Map<Seq<u8>, Seq<u8>>,
    open: Option<TransactionState>,
    m: StatementModel,
) -> bool {
    match open {
        Some(st) => plan_model(c0, st, m) is None,
        None => forall|t: MvccTransaciton, cb: Map<Seq<u8>, Seq<u8>>|
            #[trigger] t.began(c0, cb) ==> plan_model(cb, t.state(), m) is None,
    }
}

/// A client's session: the engine, and the transaction it has open.
pub struct Session<E: StorageEngine> {
    engine: KVEngine<E>,
    txn: Option<KVTransaction>,
}

impl<E: StorageEngine> KVEngine<E> {
    /// A session over the engine, with no transaction open.
    pub fn session(self) -> (r: Result<Session<E>>)
        ensures
            r matches Ok(s) && s.store() == self.kv.contents() && s.wf() == self.kv.wf()
                && s.infallible() == self.kv.infallible() && s.open_txn() is None,
    {
        Ok(Session { engine: self, txn: None })
    }
}

/// The name of a plan node's kind.
pub open spec fn node_kind_name(n: NodeModel) -> Seq<char> {
    match n {
        NodeModel::CreateTable { .. } => "CreateTable"@,
        NodeModel::Insert { .. } => "Insert"@,
        NodeModel::Scan { .. } => "Scan"@,
        NodeModel::PrimaryKeyScan { .. } => "PrimaryKeyScan"@,
        NodeModel::Update { .. } => "Update"@,
        NodeModel::Delete { .. } => "Delete"@,
        NodeModel::Limit { .. } => "Limit"@,
        NodeModel::Offset { .. } => "Offset"@,
        NodeModel::Projection { .. } => "Projection"@,
        NodeModel::Order { .. } => "Order"@,
        NodeModel::NestedLoopJoin { .. } => "NestedLoopJoin"@,
        NodeModel::HashJoin { .. } => "HashJoin"@,
        NodeModel::Aggregate { .. } => "Aggregate"@,
        NodeModel::Filter { .. } => "Filter"@,
    }
}

/// The name of a plan's top node.
fn node_name(n: &Node) -> (s: String)
    ensures
        s@ == node_kind_name(n@),
{
    match n {
        Node::CreateTable { .. } => String::from_str("CreateTable"),
        Node::Insert { .. } => String::from_str("Insert"),
        Node::Scan { .. } => String::from_str("Scan"),
        Node::PrimaryKeyScan { .. } => String::from_str("PrimaryKeyScan"),
        Node::Update { .. } => String::from_str("Update"),
        Node::Delete { .. } => String::from_str("Delete"),
        Node::Limit { .. } => String::from_str("Limit"),
        Node::Offset { .. } => String::from_str("Offset"),
        Node::Projection { .. } => String::from_str("Projection"),
        Node::Order { .. } => String::from_str("Order"),
        Node::NestedLoopJoin { .. } => String::from_str("NestedLoopJoin"),
        Node::HashJoin { .. } => String::from_str("HashJoin"),
        Node::Aggregate { .. } => String::from_str("Aggregate"),
        Node::Filter { .. } => String::from_str("Filter"),
    }
}

fn internal(msg: &str) -> (e: Error)
    ensures
        e matches Error::Internal(m) && m@ == msg@,
{
    Error::Internal(String::from_str(msg))
}

impl<E: StorageEngine> Session<E> {
    /// What the store holds.
    pub closed spec fn store(&self) -> Map<Seq<u8>, Seq<u8>> {
        self.engine.kv.contents()
    }

    pub closed spec fn wf(&self) -> bool {
        self.engine.kv.wf()
    }

    /// The store's operations never fail.
    pub closed spec fn infallible(&self) -> bool {
        self.engine.kv.infallible()
    }

    /// The transaction the session has open, if any.
    pub closed spec fn open_txn(&self) -> Option<TransactionState> {
        match self.txn {
            Some(t) => Some(t.state()),
            None => None,
        }
    }

    /// Runs one SQL statement. With no transaction open, the statement runs
    /// in one of its own, which commits where the statement succeeds and
    /// rolls back where running it fails; in an open transaction, it runs
    /// there.
    pub fn execute(&mut self, sql: &str) -> (r: Result<ResultSet>)
        requires
            old(self).wf(),
        ensures
            final(self).wf(),
            final(self).infallible() == old(self).infallible(),
            match parse_spec(sql@) {
                None => r is Err && final(self).store() == old(self).store() && final(self).open_txn()
                    == old(self).open_txn(),
                Some(m) => match old(self).open_txn() {
                    None => final(self).open_txn() is None && (r matches Ok(out) ==> ran_alone(
                        old(self).store(),
                        final(self).store(),
                        m,
                        out@,
                    )),
                    Some(st) => final(self).open_txn() == Some(st) && (r matches Ok(out) ==> ran_in(
                        old(self).store(),
                        final(self).store(),
                        st,
                        m,
                        out@,
                    )),
                },
            },
            old(self).infallible() && store_wf(old(self).store()) && next_version(old(self).store())
                != Some(u64::MAX) && r is Err && old(self).open_txn() is None ==> (parse_spec(sql@) matches Some(
                m,
            ) ==> failed_alone(old(self).store(), final(self).store(), m)),
            old(self).infallible() && store_wf(old(self).store()) ==> (old(self).open_txn() matches Some(st)
                ==> own_writes(old(self).store(), final(self).store(), st.version)),
            old(self).infallible() && store_wf(old(self).store()) && (parse_spec(sql@) matches Some(m)
                && statement_runs(old(self).store(), old(self).open_txn(), m)) ==> r is Ok,
            old(self).infallible() && store_wf(old(self).store()) && (parse_spec(sql@) matches Some(m)
                && statement_unplanned(old(self).store(), old(self).open_txn(), m)) ==> r is Err,
    {
        proof {
            if let Some(st) = self.open_txn() {
                crate::storage::mvcc_laws::lemma_own_writes_refl(self.store(), st.version);
            }
        }
        let mut parser = Parser::new(sql);
        let stmt = parser.parse()?;
        proof {
            lemma_parse_kinds(sql@);
        }
        let ghost m = stmt@;
        let ghost c0 = self.store();
        match stmt {
            Statement::Begin => {
                if self.txn.is_some() {
                    return Err(internal("Already in transaction"));
                }
                let txn = self.engine.begin()?;
                let version = txn.version();
                self.txn = Some(txn);
                Ok(ResultSet::Begin { version })
            },
            Statement::Commit => match &self.txn {
                None => Err(internal("Not in transaction")),
                Some(txn) => {
                    let version = txn.version();
                    txn.commmit(&mut self.engine.kv)?;
                    self.txn = None;
                    Ok(ResultSet::Commit { version })
                },
            },
            Statement::Rollback => match &self.txn {
                None => Err(internal("Not in transaction")),
                Some(txn) => {
                    let version = txn.version();
                    txn.rollback(&mut self.engine.kv)?;
                    self.txn = None;
                    Ok(ResultSet::Rollback { version })
                },
            },
            Statement::Explain { stmt } => {
                let node = match &self.txn {
                    Some(txn) => Planner::new(txn).build(&mut self.engine.kv, *stmt)?.0,
                    None => {
                        let txn = self.engine.begin()?;
                        let plan = Planner::new(&txn).build(&mut self.engine.kv, *stmt)?;
                        txn.commmit(&mut self.engine.kv)?;
                        plan.0
                    },
                };
                Ok(ResultSet::Explain { plan: node_name(&node) })
            },
            stmt => match &self.txn {
                Some(txn) => {
                    proof {
                        lemma_plan_model(self.store(), txn.state(), stmt);
                    }
                    let plan = Planner::new(txn).build(&mut self.engine.kv, stmt)?;
                    execute_node(plan.0, &mut self.engine.kv, txn)
                },
                None => {
                    let txn = self.engine.begin()?;
                    let ghost cb = self.store();
                    proof {
                        lemma_plan_model(cb, txn.state(), stmt);
                        assert(txn.txn.began(c0, cb));
                        if store_wf(c0) {
                            law_begin_keeps_store_wf(c0, txn.state().version);
                        }
                    }
                    let built = Planner::new(&txn).build(&mut self.engine.kv, stmt);
                    proof {
                        if built is Err && self.infallible() && store_wf(c0) {
                            assert(failed_in_began(c0, self.store(), m, txn.txn, cb));
                        }
                    }
                    let plan = built?;
                    let ghost n = plan.0@;
                    match execute_node(plan.0, &mut self.engine.kv, &txn) {
                        Ok(result) => {
                            let ghost cr = self.store();
                            txn.commmit(&mut self.engine.kv)?;
                            assert(ran_in_began(c0, self.store(), m, result@, txn.txn, cb, n, cr));
                            Ok(result)
                        },
                        Err(err) => {
                            let ghost cr = self.store();
                            txn.rollback(&mut self.engine.kv)?;
                            proof {
                                if self.infallible() && store_wf(c0) {
                                    assert(own_writes(cb, cr, txn.state().version));
                                    assert(failed_in_began(c0, self.store(), m, txn.txn, cb));
                                }
                            }
                            Err(err)
                        },
                    }
                },
            },
        }
    }

    /// The text of table `table_name`; an error where there is no such
    /// table.
    pub fn get_table(&mut self, table_name: String) -> (r: Result<String>)
        requires
            old(self).wf(),
        ensures
            final(self).wf(),
            final(self).infallible() == old(self).infallible(),
            final(self).open_txn() == old(self).open_txn(),
            r matches Ok(text) ==> exists|t: MvccTransaciton, cb: Map<Seq<u8>, Seq<u8>>|
                #[trigger] t.began(old(self).store(), cb) && (table_read(cb, t.state(), table_name@) matches Some(
                    Some(tm),
                ) && text@ == table_text(tm)) && final(self).store() == after_commit(
                    cb,
                    t.state().version,
                ),
            (forall|t: MvccTransaciton, cb: Map<Seq<u8>, Seq<u8>>|
                #[trigger] t.began(old(self).store(), cb) ==> table_read(cb, t.state(), table_name@)
                    == Some(None::<TableModel>)) ==> r is Err,
            old(self).infallible() && store_wf(old(self).store()) && next_version(old(self).store())
                != Some(u64::MAX) && (forall|t: MvccTransaciton, cb: Map<Seq<u8>, Seq<u8>>|
                #[trigger] t.began(old(self).store(), cb) ==> table_read(cb, t.state(), table_name@)
                    matches Some(Some(_))) ==> r is Ok,
            old(self).infallible() && store_wf(old(self).store()) && next_version(old(self).store())
                != Some(u64::MAX) && (forall|t: MvccTransaciton, cb: Map<Seq<u8>, Seq<u8>>|
                #[trigger] t.began(old(self).store(), cb) ==> table_read(cb, t.state(), table_name@)
                    == Some(None::<TableModel>)) ==> (r matches Err(Error::Internal(m)) && m@ == "table "@
                + table_name@ + " does not exist"@),
    {
        let ghost c0 = self.store();
        let txn = self.engine.begin()?;
        let ghost cb = self.store();
        proof {
            assert(txn.txn.began(c0, cb));
            if store_wf(c0) {
                law_begin_keeps_store_wf(c0, txn.state().version);
            }
        }
        let table = txn.must_get_table(&mut self.engine.kv, table_name)?;
        txn.commmit(&mut self.engine.kv)?;
        let text = table.to_string();
        assert(txn.txn.began(c0, cb));
        Ok(text)
    }

    /// The names of all tables, one per line.
    pub fn get_table_names(&mut self) -> (r: Result<String>)
        requires
            old(self).wf(),
        ensures
            final(self).wf(),
            final(self).infallible() == old(self).infallible(),
            final(self).open_txn() == old(self).open_txn(),
            r matches Ok(text) ==> exists|t: MvccTransaciton, cb: Map<Seq<u8>, Seq<u8>>, res: Seq<ScanResult>|
                #[trigger] t.began(old(self).store(), cb) && #[trigger] is_mvcc_scan(cb, t.state(), tables_prefix(), res)
                    && (decode_names(scan_values(res)) matches Some(names) && text@ == join_text(names, "\n"@))
                    && final(self).store() == after_commit(cb, t.state().version),
            old(self).infallible() && store_wf(old(self).store()) && next_version(old(self).store())
                != Some(u64::MAX) && (forall|t: MvccTransaciton, cb: Map<Seq<u8>, Seq<u8>>, res: Seq<ScanResult>|
                #[trigger] t.began(old(self).store(), cb) && #[trigger] is_mvcc_scan(cb, t.state(), tables_prefix(), res)
                    ==> decode_names(scan_values(res)) is Some) ==> r is Ok,
    {
        let ghost c0 = self.store();
        let txn = self.engine.begin()?;
        let ghost cb = self.store();
        proof {
            assert(txn.txn.began(c0, cb));
            if store_wf(c0) {
                law_begin_keeps_store_wf(c0, txn.state().version);
            }
        }
        let names = txn.get_table_names(&mut self.engine.kv)?;
        txn.commmit(&mut self.engine.kv)?;
        let text = join_strings(&names, "\n");
        assert(txn.txn.began(c0, cb));
        Ok(text)
    }
}

} // verus!
