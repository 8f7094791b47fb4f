//! The persistent bucket store: one table per hash function, each row a
//! hash blob and an identifier.
use crate::table::general::advance;
use crate::table::general::bucket_insert;
use crate::table::general::bucket_new;
use crate::table::general::next_id_after;
use crate::table::general::Bucket;
use crate::table::general::HashTableError;
use crate::DataPoint;
use crate::DataPointSlice;
use rusqlite::Connection;
use vstd::prelude::*;
use vstd::string::StringExecFns;

verus! {

/// The four bytes of a hash component, least significant first.
pub open spec fn component_bytes(x: i32) -> Seq<u8> {
    let w = x as u32;
    seq![
        (w & 0xff) as u8,
        ((w >> 8) & 0xff) as u8,
        ((w >> 16) & 0xff) as u8,
        ((w >> 24) & 0xff) as u8,
    ]
}

/// The hash component that four bytes encode, least significant first.
pub open spec fn component_of(b0: u8, b1: u8, b2: u8, b3: u8) -> i32 {
    ((b0 as u32) | ((b1 as u32) << 8) | ((b2 as u32) << 16) | ((b3 as u32) << 24)) as i32
}

/// The blob of a hash: the bytes of its components, in order.
pub open spec fn blob_of(hash: Seq<i32>) -> Seq<u8> {
    Seq::new(4 * hash.len(), |i: int| component_bytes(hash[i / 4])[i % 4])
}

/// The hash that a blob holds. Bytes past the last whole component are ignored.
pub open spec fn hash_of(blob: Seq<u8>) -> Seq<i32> {
    Seq::new(
        blob.len() / 4,
        |i: int| component_of(blob[4 * i], blob[4 * i + 1], blob[4 * i + 2], blob[4 * i + 3]),
    )
}

/// Four bytes decode to the component they were made from.
pub proof fn lemma_component_round_trip(x: i32)
    ensures
        component_bytes(x).len() == 4,
        component_of(
            component_bytes(x)[0],
            component_bytes(x)[1],
            component_bytes(x)[2],
            component_bytes(x)[3],
        ) == x,
{
    let w = x as u32;
    let b0 = (w & 0xff) as u8;
    let b1 = ((w >> 8) & 0xff) as u8;
    let b2 = ((w >> 16) & 0xff) as u8;
    let b3 = ((w >> 24) & 0xff) as u8;
    assert(((b0 as u32) | ((b1 as u32) << 8) | ((b2 as u32) << 16) | ((b3 as u32) << 24)) == w)
        by (bit_vector)
        requires
            b0 == (w & 0xff) as u8,
            b1 == ((w >> 8) & 0xff) as u8,
            b2 == ((w >> 16) & 0xff) as u8,
            b3 == ((w >> 24) & 0xff) as u8,
    ;
    assert((x as u32) as i32 == x) by (bit_vector);
}

/// Decoding the blob of a hash gives the hash back.
pub proof fn lemma_blob_round_trip(hash: Seq<i32>)
    ensures
        hash_of(blob_of(hash)) == hash,
{
    let blob = blob_of(hash);
    assert(blob.len() / 4 == hash.len());
    assert forall|i: int| 0 <= i < hash.len() implies hash_of(blob)[i] == hash[i] by {
        lemma_component_round_trip(hash[i]);
        assert((4 * i) / 4 == i && (4 * i) % 4 == 0);
        assert((4 * i + 1) / 4 == i && (4 * i + 1) % 4 == 1);
        assert((4 * i + 2) / 4 == i && (4 * i + 2) % 4 == 2);
        assert((4 * i + 3) / 4 == i && (4 * i + 3) % 4 == 3);
    }
    assert(hash_of(blob) =~= hash);
}

/// Encodes a hash as the blob that the store keeps.
pub fn hash_to_blob(hash: &[i32]) -> (blob: Vec<u8>)
    ensures
        blob@ == blob_of(hash@),
{
    let mut blob: Vec<u8> = Vec::new();
    let mut i: usize = 0;
    while i < hash.len()
        invariant
            i <= hash.len(),
            blob@.len() == 4 * i,
            forall|j: int| 0 <= j < blob@.len() ==> blob@[j] == component_bytes(hash@[j / 4])[j % 4],
        decreases hash.len() - i,
    {
        let w: u32 = hash[i] as u32;
        blob.push((w & 0xff) as u8);
        blob.push(((w >> 8) & 0xff) as u8);
        blob.push(((w >> 16) & 0xff) as u8);
        blob.push(((w >> 24) & 0xff) as u8);
        i += 1;
    }
    assert(blob@ =~= blob_of(hash@));
    blob
}

/// Decodes a blob into the hash that it holds.
pub fn blob_to_hash(blob: &[u8]) -> (hash: Vec<i32>)
    ensures
        hash@ == hash_of(blob@),
{
    let n: usize = blob.len() / 4;
    let mut hash: Vec<i32> = Vec::new();
    let mut i: usize = 0;
    while i < n
        invariant
            n == blob.len() / 4,
            i <= n,
            hash@.len() == i,
            forall|j: int| 0 <= j < i ==> hash@[j] == hash_of(blob@)[j],
        decreases n - i,
    {
        let b0: u32 = blob[4 * i] as u32;
        let b1: u32 = blob[4 * i + 1] as u32;
        let b2: u32 = blob[4 * i + 2] as u32;
        let b3: u32 = blob[4 * i + 3] as u32;
        hash.push((b0 | (b1 << 8) | (b2 << 16) | (b3 << 24)) as i32);
        i += 1;
    }
    assert(hash@ =~= hash_of(blob@));
    hash
}

/// The character of one decimal digit.
pub open spec fn digit_char(d: nat) -> char {
    if d == 0 {
        '0'
    } else if d == 1 {
        '1'
    } else if d == 2 {
        '2'
    } else if d == 3 {
        '3'
    } else if d == 4 {
        '4'
    } else if d == 5 {
        '5'
    } else if d == 6 {
        '6'
    } else if d == 7 {
        '7'
    } else if d == 8 {
        '8'
    } else {
        '9'
    }
}

/// A number in decimal, without leading zeros.
pub open spec fn decimal(n: nat) -> Seq<char>
    decreases n,
{
    if n < 10 {
        seq![digit_char(n)]
    } else {
        decimal(n / 10).push(digit_char(n % 10))
    }
}

/// The name of the table that belongs to hash function `idx`.
pub open spec fn table_name_of(idx: nat) -> Seq<char> {
    "hash_table_"@ + decimal(idx)
}

/// The text of one decimal digit.
fn digit_str(d: usize) -> (s: &'static str)
    requires
        d < 10,
    ensures
        s@ == seq![digit_char(d as nat)],
{
    proof {
        reveal_strlit("0");
        reveal_strlit("1");
        reveal_strlit("2");
        reveal_strlit("3");
        reveal_strlit("4");
        reveal_strlit("5");
        reveal_strlit("6");
        reveal_strlit("7");
        reveal_strlit("8");
        reveal_strlit("9");
    }
    let s: &'static str = if d == 0 {
        "0"
    } else if d == 1 {
        "1"
    } else if d == 2 {
        "2"
    } else if d == 3 {
        "3"
    } else if d == 4 {
        "4"
    } else if d == 5 {
        "5"
    } else if d == 6 {
        "6"
    } else if d == 7 {
        "7"
    } else if d == 8 {
        "8"
    } else {
        "9"
    };
    assert(s@ =~= seq![digit_char(d as nat)]);
    s
}

/// Appends `n` in decimal to `s`.
fn push_decimal(s: &mut String, n: usize)
    ensures
        final(s)@ == old(s)@ + decimal(n as nat),
    decreases n,
{
    if n >= 10 {
        push_decimal(s, n / 10);
    }
    s.append(digit_str(n % 10));
    assert(s@ =~= old(s)@ + decimal(n as nat));
}

/// The names of the tables of `n_hash_tables` hash functions, in order.
pub fn get_table_names(n_hash_tables: usize) -> (table_names: Vec<String>)
    ensures
        table_names@.len() == n_hash_tables,
        forall|i: int|
            0 <= i < n_hash_tables ==> (#[trigger] table_names@[i])@ == table_name_of(i as nat),
{
    let mut table_names: Vec<String> = Vec::with_capacity(n_hash_tables);
    let mut idx: usize = 0;
    while idx < n_hash_tables
        invariant
            idx <= n_hash_tables,
            table_names@.len() == idx,
            forall|i: int|
                0 <= i < idx ==> (#[trigger] table_names@[i])@ == table_name_of(i as nat),
        decreases n_hash_tables - idx,
    {
        let mut table_name: String = String::from_str("hash_table_");
        push_decimal(&mut table_name, idx);
        table_names.push(table_name);
        idx += 1;
    }
    table_names
}

/// `rusqlite::Connection`, a connection to a database. Nothing is known of
/// what the database holds.
#[verifier::external_type_specification]
#[verifier::external_body]
pub struct ExConnection(rusqlite::Connection);

/// `rusqlite::Error`, what a call of the database failed with. Nothing is
/// known of what is inside it.
#[verifier::external_type_specification]
#[verifier::external_body]
pub struct ExDbError(rusqlite::Error);

/// The text `prefix`, then `name`, then `suffix`.
fn statement(prefix: &str, name: &str, suffix: &str) -> (sql: String)
    ensures
        sql@ == prefix@ + name@ + suffix@,
{
    let mut sql: String = String::from_str(prefix);
    sql.append(name);
    sql.append(suffix);
    sql
}

/// The statement that creates the table of that name: a blob column `hash`
/// and an integer column `id`, the two together its primary key.
pub open spec fn create_table_sql(table_name: Seq<char>) -> Seq<char> {
    "CREATE TABLE "@ + table_name + " (hash BLOB, id INTEGER, PRIMARY KEY (hash, id))"@
}

/// The query that finds the table of that name in the database's list of
/// tables.
pub open spec fn table_exists_sql(table_name: Seq<char>) -> Seq<char> {
    "SELECT name FROM sqlite_master WHERE type='table' AND name='"@ + table_name + "';"@
}

/// The statement that adds a row, given as its two parameters, to the table
/// of that name.
pub open spec fn insert_sql(table_name: Seq<char>) -> Seq<char> {
    "INSERT INTO "@ + table_name + " (hash, id) VALUES (?1, ?2)"@
}

/// The query for the `id` of every row of the table of that name whose
/// `hash` is its parameter.
pub open spec fn select_sql(table_name: Seq<char>) -> Seq<char> {
    "SELECT (id) FROM "@ + table_name + " WHERE hash = ?"@
}

/// Writes the statement that creates the table of that name.
pub fn create_table_statement(table_name: &str) -> (sql: String)
    ensures
        sql@ == create_table_sql(table_name@),
{
    statement("CREATE TABLE ", table_name, " (hash BLOB, id INTEGER, PRIMARY KEY (hash, id))")
}

/// Writes the query that finds the table of that name.
pub fn table_exists_statement(table_name: &str) -> (sql: String)
    ensures
        sql@ == table_exists_sql(table_name@),
{
    statement("SELECT name FROM sqlite_master WHERE type='table' AND name='", table_name, "';")
}

/// Writes the statement that adds a row to the table of that name.
pub fn insert_statement(table_name: &str) -> (sql: String)
    ensures
        sql@ == insert_sql(table_name@),
{
    statement("INSERT INTO ", table_name, " (hash, id) VALUES (?1, ?2)")
}

/// Writes the query for the identifiers under a hash in the table of that
/// name.
pub fn select_statement(table_name: &str) -> (sql: String)
    ensures
        sql@ == select_sql(table_name@),
{
    statement("SELECT (id) FROM ", table_name, " WHERE hash = ?")
}

/// `Connection::open_in_memory`: a connection to a new database in memory,
/// or the error of the database. Nothing is claimed of which it is.
#[verifier::external_body]
fn db_open_in_memory() -> (r: Result<Connection, rusqlite::Error>) {
    Connection::open_in_memory()
}

/// `Connection::execute` without parameters: hands the statement to the
/// database. Nothing is claimed of the answer.
#[verifier::external_body]
fn db_execute(connection: &Connection, sql: &str) -> (r: Result<usize, rusqlite::Error>) {
    connection.execute(sql, ())
}

/// `Connection::execute` with a blob and an identifier as the two
/// parameters: hands the statement to the database. Nothing is claimed of
/// the answer.
#[verifier::external_body]
fn db_execute_row(connection: &Connection, sql: &str, blob: &[u8], idx: u32) -> (r: Result<
    usize,
    rusqlite::Error,
>) {
    connection.execute(sql, (blob, idx))
}

/// `Connection::prepare` and `Statement::exists`: whether the query has a
/// row in the database. Nothing is claimed of the answer.
#[verifier::external_body]
fn db_exists(connection: &Connection, sql: &str) -> (r: Result<bool, rusqlite::Error>) {
    connection.prepare(sql)?.exists(())
}

/// `Connection::prepare` and `Statement::query_map` with a blob as the
/// parameter: the first column of every row that the query has in the
/// database, as the database hands them out. Nothing is claimed of the
/// answer.
#[verifier::external_body]
fn db_select_ids(connection: &Connection, sql: &str, blob: &[u8]) -> (r: Result<
    Vec<u32>,
    rusqlite::Error,
>) {
    let mut stmt = connection.prepare(sql)?;
    let rows = stmt.query_map((blob,), |row| row.get(0))?;
    rows.collect()
}

/// `Error::sqlite_error_code`: whether the database refused a statement
/// because it would break a constraint of the table. Nothing is claimed of
/// the answer.
#[verifier::external_body]
fn is_constraint_violation(e: &rusqlite::Error) -> (r: bool) {
    e.sqlite_error_code() == Some(rusqlite::ErrorCode::ConstraintViolation)
}

/// How an insertion into the database ended.
#[derive(Debug, Clone, Copy, PartialEq, Eq, Structural)]
pub enum InsertOutcome {
    /// The row was added.
    Inserted,
    /// The row was there already: the primary key refused a second one.
    Duplicate,
    /// The database failed in another way.
    Failed,
}

/// What `put` answers after an insertion of `idx` that ended as `outcome`:
/// a row that was there already is as good as a new one.
pub fn put_result(idx: u32, outcome: InsertOutcome) -> (r: Result<u32, HashTableError>)
    ensures
        r == match outcome {
            InsertOutcome::Inserted => Ok::<u32, HashTableError>(idx),
            InsertOutcome::Duplicate => Ok::<u32, HashTableError>(idx),
            InsertOutcome::Failed => Err::<u32, HashTableError>(HashTableError::Failed),
        },
{
    match outcome {
        InsertOutcome::Inserted => Ok(idx),
        InsertOutcome::Duplicate => Ok(idx),
        InsertOutcome::Failed => Err(HashTableError::Failed),
    }
}

/// The bucket that holds exactly the given identifiers.
pub fn bucket_from_ids(ids: &Vec<u32>) -> (bucket: Bucket)
    ensures
        bucket@ == ids@.to_set(),
{
    let mut bucket = bucket_new();
    let mut i: usize = 0;
    while i < ids.len()
        invariant
            i <= ids@.len(),
            forall|x: u32|
                bucket@.contains(x) <==> exists|j: int| 0 <= j < i && #[trigger] ids@[j] == x,
        decreases ids@.len() - i,
    {
        bucket_insert(&mut bucket, ids[i]);
        i += 1;
    }
    assert(bucket@ =~= ids@.to_set());
    bucket
}

/// Whether the database has a table of that name.
pub fn table_exists(table_name: &str, connection: &Connection) -> (r: Result<
    bool,
    rusqlite::Error,
>) {
    let sql = table_exists_statement(table_name);
    db_exists(connection, sql.as_str())
}

/// Creates a table of that name.
pub fn make_table(table_name: &str, connection: &Connection) -> (r: Result<(), rusqlite::Error>) {
    let sql = create_table_statement(table_name);
    match db_execute(connection, sql.as_str()) {
        Ok(_) => Ok(()),
        Err(e) => Err(e),
    }
}

/// Creates the tables in order, and stops at the first that the database
/// refuses. With no table to create there is nothing to refuse.
pub fn init_table(conn: &Connection, table_names: &Vec<String>) -> (r: Result<
    (),
    rusqlite::Error,
>)
    ensures
        table_names@.len() == 0 ==> r.is_ok(),
{
    let mut i: usize = 0;
    while i < table_names.len()
        invariant
            i <= table_names@.len(),
        decreases table_names@.len() - i,
    {
        match make_table(table_names[i].as_str(), conn) {
            Ok(_) => {},
            Err(e) => {
                return Err(e);
            },
        }
        i += 1;
    }
    Ok(())
}

/// Whether the tables are still to be made, from what the database answered
/// when asked for the first: only where it answered that the table is not
/// there. Where it could not answer, nothing is made.
pub fn tables_missing(answer: Option<bool>) -> (missing: bool)
    ensures
        missing == (answer == Some(false)),
{
    match answer {
        Some(found) => !found,
        None => false,
    }
}

/// The bucket store that a database keeps: one table per hash function.
/// It keeps identifiers only, never the vectors.
pub struct SqlTable {
    n_hash_tables: usize,
    only_index_storage: bool,
    counter: u32,
    conn: Connection,
    table_names: Vec<String>,
}

impl SqlTable {
    /// The identifier that the next vector gets.
    pub closed spec fn counter(&self) -> u32 {
        self.counter
    }

    /// The number of tables.
    pub closed spec fn n_tables(&self) -> nat {
        self.n_hash_tables as nat
    }

    /// The names of the tables, in order.
    pub closed spec fn names(&self) -> Seq<Seq<char>> {
        Seq::new(self.table_names@.len(), |i: int| self.table_names@[i]@)
    }

    /// There is one name per table, and each is the name of its index.
    pub open spec fn wf(&self) -> bool {
        &&& self.names().len() == self.n_tables()
        &&& forall|i: int|
            0 <= i < self.n_tables() ==> #[trigger] self.names()[i] == table_name_of(i as nat)
    }

    /// The connection to the database.
    pub closed spec fn connection(&self) -> Connection {
        self.conn
    }

    /// The connection to the database.
    pub fn conn(&self) -> (c: &Connection)
        ensures
            *c == self.connection(),
    {
        &self.conn
    }

    /// The names of the tables, in order.
    pub fn table_names(&self) -> (names: &Vec<String>)
        ensures
            names@.len() == self.names().len(),
            forall|i: int| 0 <= i < names@.len() ==> (#[trigger] names@[i])@ == self.names()[i],
    {
        &self.table_names
    }

    /// The name of table `hash_table`, if the store has that table.
    pub fn get_table_name(&self, hash_table: usize) -> (r: Result<&str, HashTableError>)
        ensures
            match r {
                Ok(name) => hash_table < self.names().len() && name@ == self.names()[hash_table as int],
                Err(e) => hash_table >= self.names().len() && e == HashTableError::TableNotExist,
            },
    {
        if hash_table < self.table_names.len() {
            Ok(self.table_names[hash_table].as_str())
        } else {
            Err(HashTableError::TableNotExist)
        }
    }

    /// A store on `conn` whose tables are taken to exist.
    fn over(n_hash_tables: usize, only_index_storage: bool, conn: Connection) -> (r: Self)
        ensures
            r.wf(),
            r.n_tables() == n_hash_tables,
            r.counter() == 0,
    {
        let table_names = get_table_names(n_hash_tables);
        SqlTable { n_hash_tables, only_index_storage, counter: 0, conn, table_names }
    }

    /// A store of `n_hash_tables` new tables in a database in memory. Fails
    /// where the database cannot be opened or refuses a table.
    pub fn new_in_mem(n_hash_tables: usize, only_index_storage: bool) -> (r: Result<
        Self,
        HashTableError,
    >)
        ensures
            match r {
                Ok(t) => t.wf() && t.n_tables() == n_hash_tables && t.counter() == 0,
                Err(e) => e == HashTableError::Failed,
            },
    {
        let conn = match db_open_in_memory() {
            Ok(conn) => conn,
            Err(_) => {
                return Err(HashTableError::Failed);
            },
        };
        let table = SqlTable::over(n_hash_tables, only_index_storage, conn);
        match init_table(&table.conn, &table.table_names) {
            Ok(_) => Ok(table),
            Err(_) => Err(HashTableError::Failed),
        }
    }

    /// A store of `n_hash_tables` tables in the database of `conn`. The
    /// tables are created unless the database answers that the first is
    /// there already. Fails where it refuses a table.
    pub fn new(n_hash_tables: usize, only_index_storage: bool, conn: Connection) -> (r: Result<
        Self,
        HashTableError,
    >)
        requires
            n_hash_tables > 0,
        ensures
            match r {
                Ok(t) => t.wf() && t.n_tables() == n_hash_tables && t.counter() == 0,
                Err(e) => e == HashTableError::Failed,
            },
    {
        let table = SqlTable::over(n_hash_tables, only_index_storage, conn);
        assert(table.names().len() > 0);
        let answer: Option<bool> = match table_exists(
            table.table_names[0].as_str(),
            &table.conn,
        ) {
            Ok(found) => Some(found),
            Err(_) => None,
        };
        if tables_missing(answer) {
            match init_table(&table.conn, &table.table_names) {
                Ok(_) => {},
                Err(_) => {
                    return Err(HashTableError::Failed);
                },
            }
        }
        Ok(table)
    }

    /// Files the current identifier under `hash` in table `hash_table` and
    /// returns it. The identifier advances when the last table is filled,
    /// whatever the database answered. A row that is there already counts as
    /// filed; any other failure of the database is reported.
    pub fn put(&mut self, hash: crate::hash::Hash, _d: &DataPointSlice, hash_table: usize) -> (r: Result<
        u32,
        HashTableError,
    >)
        requires
            old(self).wf(),
        ensures
            final(self).wf(),
            final(self).n_tables() == old(self).n_tables(),
            final(self).names() == old(self).names(),
            hash_table >= old(self).n_tables() ==> r == Err::<u32, HashTableError>(
                HashTableError::TableNotExist,
            ) && final(self).counter() == old(self).counter(),
            hash_table < old(self).n_tables() ==> (r == Ok::<u32, HashTableError>(
                old(self).counter(),
            ) || r == Err::<u32, HashTableError>(HashTableError::Failed)),
            hash_table < old(self).n_tables() ==> final(self).counter() == if hash_table == old(
                self,
            ).n_tables() - 1 {
                next_id_after(old(self).counter())
            } else {
                old(self).counter()
            },
    {
        let idx: u32 = self.counter;
        let outcome = {
            let table_name = match self.get_table_name(hash_table) {
                Ok(name) => name,
                Err(e) => {
                    return Err(e);
                },
            };
            let blob = hash_to_blob(hash.as_slice());
            insert_table(table_name, blob.as_slice(), idx, &self.conn)
        };
        if hash_table == self.n_hash_tables - 1 {
            self.counter = advance(self.counter);
        }
        put_result(idx, outcome)
    }

    /// Does nothing: the network never deletes, and this store does not.
    pub fn delete(&mut self, hash: crate::hash::Hash, d: &DataPointSlice, hash_table: usize) -> (r: Result<
        (),
        HashTableError,
    >)
        ensures
            *final(self) == *old(self),
            r == Ok::<(), HashTableError>(()),
    {
        Ok(())
    }

    /// The whole bucket under `hash` in table `hash_table`, as the database
    /// holds it; empty where it holds no row for `hash`.
    pub fn query_bucket(&self, hash: &crate::hash::Hash, hash_table: usize) -> (r: Result<
        Bucket,
        HashTableError,
    >)
        requires
            self.wf(),
        ensures
            hash_table >= self.n_tables() ==> r == Err::<Bucket, HashTableError>(
                HashTableError::TableNotExist,
            ),
            hash_table < self.n_tables() ==> match r {
                Ok(_) => true,
                Err(e) => e == HashTableError::Failed,
            },
    {
        let table_name = match self.get_table_name(hash_table) {
            Ok(name) => name,
            Err(e) => {
                return Err(e);
            },
        };
        let blob = hash_to_blob(hash.as_slice());
        let sql = select_statement(table_name);
        match db_select_ids(&self.conn, sql.as_str(), blob.as_slice()) {
            Ok(ids) => Ok(bucket_from_ids(&ids)),
            Err(_) => Err(HashTableError::Failed),
        }
    }

    /// This store keeps no vectors.
    pub fn idx_to_datapoint(&self, idx: u32) -> (r: Result<&DataPoint, HashTableError>)
        ensures
            r == Err::<&DataPoint, HashTableError>(HashTableError::NotImplemented),
    {
        Err(HashTableError::NotImplemented)
    }

    /// Does nothing: the database grows by itself.
    pub fn increase_storage(&mut self, size: usize)
        ensures
            *final(self) == *old(self),
    {
    }
}

/// How an insertion ended, from what the database answered: whether it
/// added the row and, where it did not, whether a constraint of the table
/// refused the row.
pub fn insert_outcome(added: bool, refused_by_constraint: bool) -> (r: InsertOutcome)
    ensures
        r == if added {
            InsertOutcome::Inserted
        } else if refused_by_constraint {
            InsertOutcome::Duplicate
        } else {
            InsertOutcome::Failed
        },
{
    if added {
        InsertOutcome::Inserted
    } else if refused_by_constraint {
        InsertOutcome::Duplicate
    } else {
        InsertOutcome::Failed
    }
}

/// Adds the row of `hash` and `idx` to the table of that name, and says how
/// the database took it.
pub fn insert_table(table_name: &str, blob: &[u8], idx: u32, connection: &Connection) -> (r:
    InsertOutcome) {
    let sql = insert_statement(table_name);
    match db_execute_row(connection, sql.as_str(), blob, idx) {
        Ok(_) => insert_outcome(true, false),
        Err(e) => insert_outcome(false, is_constraint_violation(&e)),
    }
}

} // verus!
