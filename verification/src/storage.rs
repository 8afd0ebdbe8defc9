//! Which database table a decoded packet goes to, and the statement that stores it.
//! The first value of a packet names its group, the second is its timestamp, and
//! the values after the group are the row.

use vstd::prelude::*;

verus! {

/// The tables of the telemetry database, one per packet group.
#[derive(Clone, Copy, Debug, PartialEq, Eq, Structural)]
pub enum Table {
    General,
    Suspension,
    Damper,
    Drive,
    Slide,
}

impl Table {
    pub open spec fn spec_name(self) -> Seq<char> {
        match self {
            Table::General => "general"@,
            Table::Suspension => "suspension"@,
            Table::Damper => "damper"@,
            Table::Drive => "drive"@,
            Table::Slide => "slide"@,
        }
    }

    /// Columns of a row, timestamp first.
    pub open spec fn spec_columns(self) -> nat {
        match self {
            Table::General => 33,
            Table::Suspension => 23,
            Table::Damper => 9,
            Table::Drive => 16,
            Table::Slide => 12,
        }
    }

    /// After which value (counting from one) the table's statement writes a bare
    /// comma; after every other value it writes a comma and a space.
    pub open spec fn spec_unspaced_after(self) -> Option<usize> {
        match self {
            Table::Damper => Some(6),
            Table::Drive => Some(7),
            Table::Slide => Some(7),
            _ => None,
        }
    }

    /// After which value (counting from one) the table's statement writes a bare
    /// comma.
    pub fn unspaced_after(&self) -> (k: Option<usize>)
        ensures
            k == self.spec_unspaced_after(),
    {
        match self {
            Table::Damper => Some(6),
            Table::Drive => Some(7),
            Table::Slide => Some(7),
            _ => None,
        }
    }

    /// The table's name in the database.
    pub fn name(&self) -> (n: &'static str)
        ensures
            n@ == self.spec_name(),
    {
        match self {
            Table::General => "general",
            Table::Suspension => "suspension",
            Table::Damper => "damper",
            Table::Drive => "drive",
            Table::Slide => "slide",
        }
    }

    /// How many values a row of the table holds, timestamp first; a packet for the
    /// table holds its group value and then these.
    pub fn column_count(&self) -> (n: usize)
        ensures
            n == self.spec_columns(),
    {
        match self {
            Table::General => 33,
            Table::Suspension => 23,
            Table::Damper => 9,
            Table::Drive => 16,
            Table::Slide => 12,
        }
    }
}

/// Groups 0 to 4 are the general, suspension, damper, drive and slip/slide packets.
pub open spec fn table_of_group(group: i32) -> Option<Table> {
    if group == 0 {
        Some(Table::General)
    } else if group == 1 {
        Some(Table::Suspension)
    } else if group == 2 {
        Some(Table::Damper)
    } else if group == 3 {
        Some(Table::Drive)
    } else if group == 4 {
        Some(Table::Slide)
    } else {
        None
    }
}

/// The table that packets of `group` go to, if the group is known.
pub fn table_for_group(group: i32) -> (t: Option<Table>)
    ensures
        t == table_of_group(group),
{
    match group {
        0 => Some(Table::General),
        1 => Some(Table::Suspension),
        2 => Some(Table::Damper),
        3 => Some(Table::Drive),
        4 => Some(Table::Slide),
        _ => None,
    }
}

/// What becomes of one packet when a new batch is stored.
#[derive(Clone, Copy, Debug, PartialEq, Eq, Structural)]
pub enum RowAction {
    /// Its group is known and its timestamp differs from the previous batch's: a
    /// row is inserted into the table.
    Insert(Table),
    /// Its timestamp is the previous batch's: the row is already stored.
    Unchanged,
    /// Its group is not one of the known groups.
    UnknownGroup,
}

/// Decides what becomes of a packet of `group` whose timestamp differs from the
/// one at the same place in the previous batch exactly when `timestamp_changed`.
pub fn row_action(group: i32, timestamp_changed: bool) -> (a: RowAction)
    ensures
        a == match table_of_group(group) {
            Some(t) => if timestamp_changed {
                RowAction::Insert(t)
            } else {
                RowAction::Unchanged
            },
            None => RowAction::UnknownGroup,
        },
{
    match table_for_group(group) {
        Some(t) => if timestamp_changed {
            RowAction::Insert(t)
        } else {
            RowAction::Unchanged
        },
        None => RowAction::UnknownGroup,
    }
}

/// The separator the statement for `table` writes after its `j`-th value
/// (counting from one): a comma and a space, except a bare comma at the one place
/// where the damper, drive and slide statements have one.
pub open spec fn separator(table: Table, j: int) -> Seq<char> {
    if 0 < j && table.spec_unspaced_after() == Some(j as usize) {
        ","@
    } else {
        ", "@
    }
}

/// The values of a row of `table`, with their separators between them.
pub open spec fn row_text(table: Table, values: Seq<Seq<char>>) -> Seq<char>
    decreases values.len(),
{
    if values.len() == 0 {
        Seq::empty()
    } else if values.len() == 1 {
        values[0]
    } else {
        row_text(table, values.drop_last()) + separator(table, values.len() - 1) + values.last()
    }
}

/// The statement that stores a row of `values` (each written as SQL text) in `table`.
pub open spec fn insert_sql(table: Table, values: Seq<Seq<char>>) -> Seq<char> {
    "INSERT INTO "@ + table.spec_name() + " VALUES ("@ + row_text(table, values) + ");"@
}

/// Builds the statement that stores a row of `values` in `table`.
pub fn insert_statement(table: Table, values: &Vec<String>) -> (sql: String)
    ensures
        sql@ == insert_sql(table, values@.map_values(|v: String| v@)),
{
    let ghost texts = values@.map_values(|v: String| v@);
    let ghost head = "INSERT INTO "@ + table.spec_name() + " VALUES ("@;
    let unspaced = table.unspaced_after();
    let mut sql = "INSERT INTO ".to_owned();
    sql.append(table.name());
    sql.append(" VALUES (");
    let mut i: usize = 0;
    while i < values.len()
        invariant
            i <= values.len(),
            unspaced == table.spec_unspaced_after(),
            texts == values@.map_values(|v: String| v@),
            sql@ == head + row_text(table, texts.take(i as int)),
        decreases values.len() - i,
    {
        proof {
            assert(texts.take(i + 1).drop_last() =~= texts.take(i as int));
            assert(texts.take(i + 1).last() == values@[i as int]@);
        }
        if i > 0 {
            if unspaced == Some(i) {
                sql.append(",");
            } else {
                sql.append(", ");
            }
        } else {
            proof {
                assert(texts.take(0) =~= Seq::<Seq<char>>::empty());
                assert(texts.take(1) =~= seq![values@[0]@]);
            }
        }
        sql.append(values[i].as_str());
        proof {
            if i > 0 {
                let sep = separator(table, i as int);
                assert(head + row_text(table, texts.take(i as int)) + sep + values@[i as int]@
                    =~= head + (row_text(table, texts.take(i as int)) + sep + values@[i as int]@));
            } else {
                assert(row_text(table, texts.take(0)) =~= Seq::<char>::empty());
                assert(head + row_text(table, texts.take(0)) + values@[0]@ =~= head + values@[0]@);
            }
        }
        i += 1;
    }
    proof {
        assert(texts.take(i as int) =~= texts);
    }
    sql.append(");");
    sql
}

} // verus!
