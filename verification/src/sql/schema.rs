//! Tables and their columns.
use vstd::prelude::*;

use super::parser::ast::{names_view, position, spec_position};
use super::types::{datatype_of, row_view, value_text, DataType, Row, Value, ValueModel};
use crate::error::{Error, Result};

verus! {

/// A table: its name and columns.
#[derive(Debug, PartialEq)]
pub struct Table {
    pub name: String,
    pub columns: Vec<Column>,
}

/// A column of a table.
#[derive(Debug, PartialEq)]
pub struct Column {
    pub name: String,
    pub datatype: DataType,
    pub nullable: bool,
    pub default: Option<Value>,
    pub primary_key: bool,
}

pub struct ColumnModel {
    pub name: Seq<char>,
    pub datatype: DataType,
    pub nullable: bool,
    pub default: Option<ValueModel>,
    pub primary_key: bool,
}

pub struct TableModel {
    pub name: Seq<char>,
    pub columns: Seq<ColumnModel>,
}

impl View for Column {
    type V = ColumnModel;

    open spec fn view(&self) -> ColumnModel {
        ColumnModel {
            name: self.name@,
            datatype: self.datatype,
            nullable: self.nullable,
            default: match self.default {
                Some(v) => Some(v@),
                None => None,
            },
            primary_key: self.primary_key,
        }
    }
}

impl View for Table {
    type V = TableModel;

    open spec fn view(&self) -> TableModel {
        TableModel { name: self.name@, columns: self.columns@.map_values(|c: Column| c@) }
    }
}

/// The number of primary-key columns.
pub open spec fn pk_count(cols: Seq<ColumnModel>) -> nat
    decreases cols.len(),
{
    if cols.len() == 0 {
        0
    } else {
        pk_count(cols.drop_last()) + if cols.last().primary_key {
            1nat
        } else {
            0nat
        }
    }
}

proof fn lemma_pk_count_zero(cols: Seq<ColumnModel>)
    ensures
        pk_count(cols) == 0 <==> forall|j: int| 0 <= j < cols.len() ==> !(#[trigger] cols[j]).primary_key,
    decreases cols.len(),
{
    if cols.len() > 0 {
        let p = cols.drop_last();
        lemma_pk_count_zero(p);
        if pk_count(cols) == 0 {
            assert forall|j: int| 0 <= j < cols.len() implies !(#[trigger] cols[j]).primary_key by {
                if j < p.len() {
                    assert(p[j] == cols[j]);
                }
            }
        }
        if forall|j: int| 0 <= j < cols.len() ==> !(#[trigger] cols[j]).primary_key {
            assert forall|j: int| 0 <= j < p.len() implies !(#[trigger] p[j]).primary_key by {
                assert(p[j] == cols[j]);
            }
            assert(!cols[cols.len() - 1].primary_key);
        }
    }
}

/// Column `i` is the primary key of `cols`, and no other column is.
pub open spec fn only_primary_key(cols: Seq<ColumnModel>, i: int) -> bool {
    &&& 0 <= i < cols.len()
    &&& cols[i].primary_key
    &&& forall|j: int| 0 <= j < cols.len() && j != i ==> !(#[trigger] cols[j]).primary_key
}

proof fn lemma_pk_count_one(cols: Seq<ColumnModel>)
    ensures
        pk_count(cols) == 1 <==> exists|i: int| #[trigger] only_primary_key(cols, i),
    decreases cols.len(),
{
    if cols.len() > 0 {
        let p = cols.drop_last();
        let n = cols.len() - 1;
        lemma_pk_count_one(p);
        lemma_pk_count_zero(p);
        assert(forall|j: int| 0 <= j < p.len() ==> p[j] == cols[j]);
        if pk_count(cols) == 1 {
            if cols[n].primary_key {
                assert(only_primary_key(cols, n));
            } else {
                let i = choose|i: int| #[trigger] only_primary_key(p, i);
                assert(only_primary_key(cols, i));
            }
        }
        if exists|i: int| #[trigger] only_primary_key(cols, i) {
            let i = choose|i: int| #[trigger] only_primary_key(cols, i);
            if i == n {
                assert(pk_count(p) == 0);
            } else {
                assert(only_primary_key(p, i));
                assert(!cols[n].primary_key);
            }
        }
    }
}

/// A table is valid exactly when it has columns and one of them, and no
/// other, is its primary key; in particular a table with two primary-key
/// columns is not valid, and `Table::validate` refuses it.
pub proof fn law_valid_table_has_one_primary_key(t: TableModel)
    ensures
        table_valid(t) <==> t.columns.len() > 0 && exists|i: int| #[trigger] only_primary_key(t.columns, i),
        forall|i: int, j: int|
            0 <= i < t.columns.len() && 0 <= j < t.columns.len() && i != j && (#[trigger] t.columns[i]).primary_key
                && (#[trigger] t.columns[j]).primary_key ==> !table_valid(t),
{
    lemma_pk_count_one(t.columns);
}

/// The position of the first primary-key column.
pub open spec fn pk_position(cols: Seq<ColumnModel>) -> Option<int> {
    if exists|i: int| 0 <= i < cols.len() && cols[i].primary_key {
        Some(choose|i: int| 0 <= i < cols.len() && cols[i].primary_key && forall|j: int| 0 <= j < i ==> !cols[j].primary_key)
    } else {
        None
    }
}

pub proof fn lemma_pk_position(cols: Seq<ColumnModel>)
    ensures
        pk_position(cols) matches Some(k) ==> 0 <= k < cols.len() && cols[k].primary_key && forall|
            j: int,
        | 0 <= j < k ==> !cols[j].primary_key,
        pk_position(cols) is None ==> forall|j: int| 0 <= j < cols.len() ==> !cols[j].primary_key,
{
    if exists|i: int| 0 <= i < cols.len() && cols[i].primary_key {
        let i0 = choose|i: int| 0 <= i < cols.len() && cols[i].primary_key;
        lemma_first_pk(cols, i0);
    }
}

proof fn lemma_first_pk(cols: Seq<ColumnModel>, i0: int)
    requires
        0 <= i0 < cols.len() && cols[i0].primary_key,
    ensures
        exists|i: int|
            0 <= i < cols.len() && cols[i].primary_key && forall|j: int|
                0 <= j < i ==> !cols[j].primary_key,
    decreases i0,
{
    if exists|j: int| 0 <= j < i0 && cols[j].primary_key {
        let j = choose|j: int| 0 <= j < i0 && cols[j].primary_key;
        lemma_first_pk(cols, j);
    } else {
        assert(forall|j: int| 0 <= j < i0 ==> !cols[j].primary_key);
    }
}

/// A table is valid: it has columns, and exactly one primary key.
pub open spec fn table_valid(t: TableModel) -> bool {
    t.columns.len() > 0 && pk_count(t.columns) == 1
}

impl Column {
    pub open spec fn wf(&self) -> bool {
        match self.default {
            Some(v) => v.wf(),
            None => true,
        }
    }
}

impl Table {
    pub open spec fn wf(&self) -> bool {
        forall|i: int| 0 <= i < self.columns@.len() ==> (#[trigger] self.columns@[i]).wf()
    }

    /// Checks that the table has columns and exactly one primary key.
    pub fn validate(&self) -> (r: Result<()>)
        ensures
            r is Ok <==> table_valid(self@),
            r matches Err(e) ==> e is Internal,
            r matches Err(Error::Internal(m)) ==> m@ == (if self@.columns.len() == 0 {
                "table "@ + self@.name + " has no columns"@
            } else if pk_count(self@.columns) == 0 {
                "No primary key for table "@ + self@.name
            } else {
                "Mutiple primary keys for table "@ + self@.name
            }),
    {
        if self.columns.len() == 0 {
            return Err(
                Error::Internal(
                    String::from_str("table ").concat(self.name.as_str()).concat(" has no columns"),
                ),
            );
        }
        let ghost cols = self@.columns;
        let mut count: usize = 0;
        let mut i: usize = 0;
        while i < self.columns.len()
            invariant
                i <= self.columns@.len(),
                cols == self@.columns,
                count == pk_count(cols.take(i as int)),
                count <= i,
            decreases self.columns@.len() - i,
        {
            assert(cols.take(i + 1).drop_last() =~= cols.take(i as int));
            assert(cols[i as int] == self.columns@[i as int]@);
            if self.columns[i].primary_key {
                count = count + 1;
            }
            i = i + 1;
        }
        assert(cols.take(i as int) =~= cols);
        if count == 1 {
            Ok(())
        } else if count == 0 {
            Err(
                Error::Internal(
                    String::from_str("No primary key for table ").concat(self.name.as_str()),
                ),
            )
        } else {
            Err(
                Error::Internal(
                    String::from_str("Mutiple primary keys for table ").concat(self.name.as_str()),
                ),
            )
        }
    }

    /// The position of the primary-key column, if there is one.
    pub fn primary_key_index(&self) -> (r: Option<usize>)
        ensures
            match pk_position(self@.columns) {
                Some(i) => r matches Some(p) && p as int == i,
                None => r is None,
            },
    {
        let ghost cols = self@.columns;
        let mut i: usize = 0;
        while i < self.columns.len()
            invariant
                i <= self.columns@.len(),
                cols == self@.columns,
                forall|j: int| 0 <= j < i ==> !cols[j].primary_key,
            decreases self.columns@.len() - i,
        {
            assert(cols[i as int] == self.columns@[i as int]@);
            if self.columns[i].primary_key {
                proof {
                    let k = choose|k: int| 0 <= k < cols.len() && cols[k].primary_key && forall|j: int| 0 <= j < k ==> !cols[j].primary_key;
                    if k < i {
                        assert(!cols[k].primary_key);
                    }
                    if k > i {
                        assert(!cols[i as int].primary_key);
                    }
                }
                return Some(i);
            }
            i = i + 1;
        }
        None
    }

    /// The value of the primary-key column in `row`.
    pub fn get_primary_key(&self, row: &Row) -> (r: Result<Value>)
        requires
            pk_position(self@.columns) is Some,
            pk_position(self@.columns)->0 < row@.len(),
        ensures
            r is Ok,
            r matches Ok(v) ==> v@ == row@[pk_position(self@.columns)->0]@,
            super::types::row_wf(row@) ==> (r matches Ok(v) && v.wf()),
    {
        let pos = self.primary_key_index();
        let ghost k = pk_position(self@.columns)->0;
        proof {
            lemma_pk_position(self@.columns);
            assert(self@.columns.len() == self.columns@.len());
        }
        match pos {
            Some(p) => {
                assert(p as int == k);
                Ok(row[p].copy())
            },
            None => Err(Error::Internal(String::from_str("No primary key found"))),
        }
    }

    /// The position of the column named `col_name`.
    pub fn get_col_indedx(&self, col_name: &String) -> (r: Result<usize>)
        ensures
            match spec_position(self.column_names(), col_name@) {
                Some(i) => r == Ok::<usize, Error>(i as usize),
                None => r matches Err(Error::Internal(m)) && m@ == "Column "@ + col_name@ + " not found"@,
            },
    {
        let names = self.names();
        match position(&names, col_name) {
            Some(i) => Ok(i),
            None => Err(
                Error::Internal(
                    String::from_str("Column ").concat(col_name.as_str()).concat(" not found"),
                ),
            ),
        }
    }

    pub open spec fn column_names(&self) -> Seq<Seq<char>> {
        self@.columns.map_values(|c: ColumnModel| c.name)
    }

    /// The names of the columns, in order.
    pub fn names(&self) -> (r: Vec<String>)
        ensures
            names_view(r@) == self.column_names(),
    {
        let mut r: Vec<String> = Vec::new();
        let mut i: usize = 0;
        while i < self.columns.len()
            invariant
                i <= self.columns@.len(),
                r@.len() == i,
                names_view(r@) == self.column_names().take(i as int),
            decreases self.columns@.len() - i,
        {
            let ghost old_r = r@;
            r.push(self.columns[i].name.clone());
            proof {
                let t = self.column_names().take(i + 1);
                assert forall|j: int| 0 <= j < i + 1 implies names_view(r@)[j] == t[j] by {
                    if j < i {
                        assert(r@[j] == old_r[j]);
                        assert(names_view(old_r)[j] == old_r[j]@);
                        assert(names_view(old_r)[j] == names_view(r@)[j]);
                    } else {
                        assert(r@[j]@ == self.columns@[j]@.name);
                    }
                }
                assert(names_view(r@) =~= t);
            }
            i = i + 1;
        }
        assert(self.column_names().take(i as int) =~= self.column_names());
        r
    }
}


/// The name of a type, as a table's text shows it.
pub open spec fn datatype_name(d: DataType) -> Seq<char> {
    match d {
        DataType::Boolean => "BOOLEAN"@,
        DataType::Integer => "INTEGER"@,
        DataType::Float => "FLOAT"@,
        DataType::String => "STRING"@,
    }
}

/// The text of a column: its name, its type, then `PRIMARY KEY`, `NULL` or
/// `NOT NULL`, and its default.
pub open spec fn column_text(c: ColumnModel) -> Seq<char> {
    c.name + " "@ + datatype_name(c.datatype) + (if c.primary_key {
        " PRIMARY KEY"@
    } else {
        Seq::empty()
    }) + (if c.nullable {
        " NULL"@
    } else {
        " NOT NULL"@
    }) + match c.default {
        Some(v) => " DEFAULT "@ + value_text(v),
        None => Seq::empty(),
    }
}

/// The text of a table: its name, then its columns in parentheses.
pub open spec fn table_text(t: TableModel) -> Seq<char> {
    t.name + " ("@ + crate::sql::executor::join_text(
        t.columns.map_values(|c: ColumnModel| column_text(c)),
        ", "@,
    ) + ")"@
}

fn datatype_string(d: DataType) -> (s: String)
    ensures
        s@ == datatype_name(d),
{
    match d {
        DataType::Boolean => String::from_str("BOOLEAN"),
        DataType::Integer => String::from_str("INTEGER"),
        DataType::Float => String::from_str("FLOAT"),
        DataType::String => String::from_str("STRING"),
    }
}

impl Column {
    /// The text of the column.
    pub fn to_string(&self) -> (s: String)
        ensures
            s@ == column_text(self@),
    {
        let mut s = self.name.clone();
        s = s.concat(" ");
        s = s.concat(datatype_string(self.datatype).as_str());
        if self.primary_key {
            s = s.concat(" PRIMARY KEY");
        }
        if self.nullable {
            s = s.concat(" NULL");
        } else {
            s = s.concat(" NOT NULL");
        }
        match &self.default {
            Some(v) => {
                s = s.concat(" DEFAULT ");
                s = s.concat(v.to_string().as_str());
            },
            None => {},
        }
        proof {
            reveal_strlit(" ");
            reveal_strlit(" PRIMARY KEY");
            reveal_strlit(" NULL");
            reveal_strlit(" NOT NULL");
            reveal_strlit(" DEFAULT ");
        }
        assert(s@ =~= column_text(self@));
        s
    }
}

impl Table {
    /// The text of the table.
    pub fn to_string(&self) -> (s: String)
        ensures
            s@ == table_text(self@),
    {
        let mut parts: Vec<String> = Vec::new();
        let mut i: usize = 0;
        while i < self.columns.len()
            invariant
                i <= self.columns@.len(),
                crate::sql::parser::ast::names_view(parts@) == self@.columns.take(i as int).map_values(
                    |c: ColumnModel| column_text(c),
                ),
            decreases self.columns@.len() - i,
        {
            let ghost old_parts = parts@;
            parts.push(self.columns[i].to_string());
            proof {
                assert(crate::sql::parser::ast::names_view(parts@) =~= crate::sql::parser::ast::names_view(old_parts).push(
                    column_text(self.columns@[i as int]@),
                ));
                assert(self@.columns.take(i + 1).map_values(|c: ColumnModel| column_text(c))
                    =~= self@.columns.take(i as int).map_values(|c: ColumnModel| column_text(c)).push(
                    column_text(self.columns@[i as int]@),
                ));
            }
            i = i + 1;
        }
        assert(self@.columns.take(i as int) =~= self@.columns);
        let body = crate::sql::executor::join_strings(&parts, ", ");
        let mut s = self.name.clone();
        s = s.concat(" (");
        s = s.concat(body.as_str());
        s = s.concat(")");
        proof {
            reveal_strlit(" (");
            reveal_strlit(")");
        }
        assert(s@ =~= table_text(self@));
        s
    }
}

} // verus!
