//! The catalogue: the registry of admitted tables and their columns, and the
//! admission of parsed models into it.
use vstd::prelude::*;

use crate::basic_types::BasicType;
use crate::ddl::{
    analyze, ddl_analysis, duplicate_name_errors, lemma_primary_key_count_none, model_views,
    named_before, primary_key_count, primary_key_errors, texts, FieldV, Model, ModelV,
};
use crate::text::same_text;

verus! {

/// A column of a table: a field's name, type and nullability.
pub struct Column {
    name: String,
    data_type: BasicType,
    nullable: bool,
}

/// An admitted table: its name, its ordered columns and which of them is the
/// primary key.
pub struct Table {
    name: String,
    columns: Vec<Column>,
    primary_key: u32,
}

/// The registry of tables, in order of admission.
pub struct Catalogue {
    tables: Vec<Table>,
}

/// The mathematical value of a column.
pub struct ColumnV {
    pub name: Seq<char>,
    pub data_type: BasicType,
    pub nullable: bool,
}

/// The mathematical value of a table.
pub struct TableV {
    pub name: Seq<char>,
    pub columns: Seq<ColumnV>,
    pub primary_key: nat,
}

impl View for Column {
    type V = ColumnV;

    closed spec fn view(&self) -> ColumnV {
        ColumnV { name: self.name@, data_type: self.data_type, nullable: self.nullable }
    }
}

impl View for Table {
    type V = TableV;

    closed spec fn view(&self) -> TableV {
        TableV {
            name: self.name@,
            columns: self.columns@.map_values(|c: Column| c@),
            primary_key: self.primary_key as nat,
        }
    }
}

impl View for Catalogue {
    type V = Seq<TableV>;

    closed spec fn view(&self) -> Seq<TableV> {
        self.tables@.map_values(|t: Table| t@)
    }
}

/// The views of a list of columns.
pub open spec fn column_views(v: Seq<Column>) -> Seq<ColumnV> {
    v.map_values(|c: Column| c@)
}

/// The views of a list of tables.
pub open spec fn table_views(v: Seq<Table>) -> Seq<TableV> {
    v.map_values(|t: Table| t@)
}

/// Whether some table is named `name`.
pub open spec fn has_table(ts: Seq<TableV>, name: Seq<char>) -> bool {
    exists|i: int| 0 <= i < ts.len() && #[trigger] ts[i].name == name
}

/// Whether some column is named `name`.
pub open spec fn has_column(cs: Seq<ColumnV>, name: Seq<char>) -> bool {
    exists|i: int| 0 <= i < cs.len() && #[trigger] cs[i].name == name
}

/// The index of the first table named `name`, searching from `i`.
pub open spec fn table_index_from(ts: Seq<TableV>, name: Seq<char>, i: int) -> int
    decreases ts.len() - i,
{
    if i < 0 || i >= ts.len() {
        ts.len() as int
    } else if ts[i].name == name {
        i
    } else {
        table_index_from(ts, name, i + 1)
    }
}

/// The index of the first table named `name`, or the number of tables.
pub open spec fn table_index(ts: Seq<TableV>, name: Seq<char>) -> int {
    table_index_from(ts, name, 0)
}

impl Column {
    pub fn new(name: String, data_type: BasicType, nullable: bool) -> (r: Column)
        ensures
            r@ == (ColumnV { name: name@, data_type, nullable }),
    {
        Column { name, data_type, nullable }
    }

    pub fn name(&self) -> (r: &String)
        ensures
            r@ == self@.name,
    {
        &self.name
    }

    pub fn data_type(&self) -> (r: BasicType)
        ensures
            r == self@.data_type,
    {
        self.data_type
    }

    pub fn nullable(&self) -> (r: bool)
        ensures
            r == self@.nullable,
    {
        self.nullable
    }
}

impl Table {
    pub fn new(name: String, columns: Vec<Column>, primary_key: u32) -> (r: Table)
        ensures
            r@ == (TableV {
                name: name@,
                columns: column_views(columns@),
                primary_key: primary_key as nat,
            }),
    {
        Table { name, columns, primary_key }
    }

    pub fn name(&self) -> (r: &String)
        ensures
            r@ == self@.name,
    {
        &self.name
    }

    pub fn columns(&self) -> (r: &Vec<Column>)
        ensures
            column_views(r@) == self@.columns,
    {
        &self.columns
    }

    pub fn primary_key(&self) -> (r: u32)
        ensures
            r as nat == self@.primary_key,
    {
        self.primary_key
    }

    /// Whether the table has a column named `name`.
    pub fn column_exists(&self, name: &str) -> (r: bool)
        ensures
            r == has_column(self@.columns, name@),
    {
        let n = self.columns.len();
        let mut i: usize = 0;
        while i < n
            invariant
                i <= n,
                n == self.columns@.len(),
                forall|k: int| 0 <= k < i ==> self@.columns[k].name != name@,
            decreases n - i,
        {
            if same_text(self.columns[i].name.as_str(), name) {
                assert(self@.columns[i as int].name == name@);
                return true;
            }
            i = i + 1;
        }
        false
    }
}

impl Catalogue {
    pub fn new(tables: Vec<Table>) -> (r: Catalogue)
        ensures
            r@ == table_views(tables@),
    {
        Catalogue { tables }
    }

    /// The tables, in order of admission.
    pub fn tables(&self) -> (r: &Vec<Table>)
        ensures
            table_views(r@) == self@,
    {
        &self.tables
    }

    /// Whether some table is named `table_name`.
    pub fn table_exists(&self, table_name: &str) -> (r: bool)
        ensures
            r == has_table(self@, table_name@),
    {
        let n = self.tables.len();
        let mut i: usize = 0;
        while i < n
            invariant
                i <= n,
                n == self@.len(),
                forall|k: int| 0 <= k < i ==> self@[k].name != table_name@,
            decreases n - i,
        {
            if same_text(self.tables[i].name.as_str(), table_name) {
                assert(self@[i as int].name == table_name@);
                return true;
            }
            i = i + 1;
        }
        false
    }

    /// The first table named `table_name`, if there is one.
    pub fn get_table(&self, table_name: &str) -> (r: Option<&Table>)
        ensures
            r is Some == has_table(self@, table_name@),
            r is Some ==> 0 <= table_index(self@, table_name@) < self@.len() && r->Some_0@
                == self@[table_index(self@, table_name@)],
    {
        let n = self.tables.len();
        let mut i: usize = 0;
        while i < n
            invariant
                i <= n,
                n == self@.len(),
                forall|k: int| 0 <= k < i ==> self@[k].name != table_name@,
                table_index_from(self@, table_name@, i as int) == table_index(self@, table_name@),
            decreases n - i,
        {
            if same_text(self.tables[i].name.as_str(), table_name) {
                assert(self@[i as int].name == table_name@);
                return Some(&self.tables[i]);
            }
            i = i + 1;
        }
        None
    }

    /// Appends a table.
    pub fn add_table(&mut self, table: Table)
        ensures
            final(self)@ == old(self)@.push(table@),
    {
        self.tables.push(table);
        assert(self@ =~= old(self)@.push(table@));
    }
}

/// Why a batch of models was not admitted.
pub enum AdmitError {
    /// The structural checks failed; every message is kept.
    Invalid(Vec<String>),
    /// A model is named like a table that the catalogue already holds.
    TableExists(String),
}

/// The column that a field becomes: its key and reference marks are dropped.
pub open spec fn column_of(f: FieldV) -> ColumnV {
    ColumnV { name: f.name, data_type: f.field_type, nullable: f.is_nullable }
}

/// The index of the first primary-key field from `k` on, or the number of fields.
pub open spec fn first_primary_key_from(fs: Seq<FieldV>, k: int) -> nat
    decreases fs.len() - k,
{
    if k < 0 || k >= fs.len() {
        fs.len()
    } else if fs[k].is_primary_key {
        k as nat
    } else {
        first_primary_key_from(fs, k + 1)
    }
}

/// The table that a model becomes.
pub open spec fn model_table(m: ModelV) -> TableV {
    TableV {
        name: m.name,
        columns: m.fields.map_values(|f: FieldV| column_of(f)),
        primary_key: first_primary_key_from(m.fields, 0),
    }
}

/// Where no field from `k` on is a primary key, the search runs off the end.
proof fn lemma_first_primary_key_absent(fs: Seq<FieldV>, k: int)
    requires
        0 <= k <= fs.len(),
        first_primary_key_from(fs, k) == fs.len(),
    ensures
        forall|j: int| k <= j < fs.len() ==> !(#[trigger] fs[j]).is_primary_key,
    decreases fs.len() - k,
{
    if k < fs.len() {
        lemma_first_primary_key_absent(fs, k + 1);
    }
}

/// The search for a primary key never runs past the end.
proof fn lemma_first_primary_key_bound(fs: Seq<FieldV>, k: int)
    ensures
        first_primary_key_from(fs, k) <= fs.len(),
    decreases fs.len() - k,
{
    if 0 <= k < fs.len() && !fs[k].is_primary_key {
        lemma_first_primary_key_bound(fs, k + 1);
    }
}

/// Models that pass the structural checks each have exactly one primary key.
proof fn lemma_checked_models_have_one_key(ms: Seq<ModelV>, i: int)
    requires
        primary_key_errors(ms).len() == 0,
        0 <= i < ms.len(),
    ensures
        primary_key_count(ms[i].fields) == 1,
    decreases ms.len(),
{
    if primary_key_count(ms.last().fields) != 1 {
        assert(primary_key_errors(ms).len() > 0);
    }
    if i < ms.len() - 1 {
        lemma_checked_models_have_one_key(ms.drop_last(), i);
    }
}

/// The table of a model with exactly one primary key points at a column.
proof fn lemma_model_table_key_valid(m: ModelV)
    requires
        primary_key_count(m.fields) == 1,
    ensures
        model_table(m).primary_key < model_table(m).columns.len(),
{
    lemma_first_primary_key_bound(m.fields, 0);
    assert(model_table(m).columns.len() == m.fields.len());
    if first_primary_key_from(m.fields, 0) == m.fields.len() {
        lemma_first_primary_key_absent(m.fields, 0);
        lemma_primary_key_count_none(m.fields);
    }
}

/// Whether no two tables share a name.
pub open spec fn unique_names(ts: Seq<TableV>) -> bool {
    forall|i: int, j: int| 0 <= i < j < ts.len() ==> ts[i].name != ts[j].name
}

/// Whether two of the models share a name.
pub open spec fn repeats_a_name(ms: Seq<ModelV>) -> bool {
    exists|i: int, j: int| 0 <= i < j < ms.len() && ms[i].name == ms[j].name
}

/// Models that pass the name check have pairwise distinct names.
proof fn lemma_checked_names_distinct(ms: Seq<ModelV>)
    requires
        duplicate_name_errors(ms).len() == 0,
    ensures
        !repeats_a_name(ms),
    decreases ms.len(),
{
    if ms.len() > 0 {
        if named_before(ms, ms.len() - 1) {
            assert(duplicate_name_errors(ms).len() > 0);
        }
        lemma_checked_names_distinct(ms.drop_last());
        assert forall|i: int, j: int| 0 <= i < j < ms.len() implies ms[i].name != ms[j].name by {
            if j == ms.len() - 1 {
                if ms[i].name == ms[j].name {
                    assert(named_before(ms, j));
                }
            } else {
                assert(ms.drop_last()[i] == ms[i]);
                assert(ms.drop_last()[j] == ms[j]);
            }
        }
    }
}

/// The index of the first model, from `k` on, named like a table of `ts`; or
/// the number of models.
pub open spec fn first_clash_from(ts: Seq<TableV>, ms: Seq<ModelV>, k: int) -> int
    decreases ms.len() - k,
{
    if k < 0 || k >= ms.len() {
        ms.len() as int
    } else if has_table(ts, ms[k].name) {
        k
    } else {
        first_clash_from(ts, ms, k + 1)
    }
}

/// The index of the first model named like a table of `ts`, or the number of models.
pub open spec fn first_clash(ts: Seq<TableV>, ms: Seq<ModelV>) -> int {
    first_clash_from(ts, ms, 0)
}

/// The names of the models.
pub open spec fn model_names(ms: Seq<ModelV>) -> Seq<Seq<char>> {
    ms.map_values(|m: ModelV| m.name)
}

/// The table that a model becomes.
fn table_of(model: &Model) -> (r: Table)
    requires
        model.fields@.len() <= u32::MAX,
    ensures
        r@ == model_table(model@),
{
    let n = model.fields.len();
    let ghost fs = model@.fields;
    let mut columns: Vec<Column> = Vec::new();
    let mut k: usize = 0;
    while k < n
        invariant
            k <= n,
            n == fs.len(),
            fs == model@.fields,
            column_views(columns@) == fs.subrange(0, k as int).map_values(|f: FieldV| column_of(f)),
        decreases n - k,
    {
        let f = &model.fields[k];
        let c = Column::new(f.name.clone(), f.field_type, f.is_nullable);
        let ghost before = columns@;
        columns.push(c);
        proof {
            assert(column_views(columns@) =~= column_views(before).push(c@));
            assert(fs.subrange(0, k + 1).map_values(|f: FieldV| column_of(f)) =~= fs.subrange(
                0,
                k as int,
            ).map_values(|f: FieldV| column_of(f)).push(column_of(fs[k as int])));
        }
        k = k + 1;
    }
    assert(fs.subrange(0, n as int) =~= fs);
    let mut key: usize = 0;
    while key < n && !model.fields[key].is_primary_key
        invariant
            key <= n,
            n == fs.len(),
            fs == model@.fields,
            first_primary_key_from(fs, key as int) == first_primary_key_from(fs, 0),
        decreases n - key,
    {
        key = key + 1;
    }
    Table::new(model.name.clone(), columns, key as u32)
}

impl Catalogue {
    /// Admits a batch of parsed models as tables. The structural checks run
    /// first and every message is returned if any fails; then no model may be
    /// named like a table already held. Only then are the tables appended, in
    /// order, and the models' names returned. A refused batch leaves the
    /// catalogue as it was.
    pub fn admit_models(&mut self, models: &Vec<Model>) -> (r: Result<Vec<String>, AdmitError>)
        requires
            forall|i: int| 0 <= i < models@.len() ==> (#[trigger] models@[i]).fields@.len() <= u32::MAX,
        ensures
            (exists|i: int|
                0 <= i < models@.len() && has_table(old(self)@, #[trigger] models@[i]@.name)) ==> r is Err
                && final(self)@ == old(self)@,
            repeats_a_name(model_views(models@)) ==> r is Err && final(self)@ == old(self)@,
            unique_names(old(self)@) ==> unique_names(final(self)@),
            match r {
                Err(AdmitError::Invalid(errors)) => {
                    &&& ddl_analysis(model_views(models@)).len() > 0
                    &&& texts(errors@) == ddl_analysis(model_views(models@))
                    &&& final(self)@ == old(self)@
                },
                Err(AdmitError::TableExists(name)) => {
                    &&& ddl_analysis(model_views(models@)).len() == 0
                    &&& 0 <= first_clash(old(self)@, model_views(models@)) < models@.len()
                    &&& name@ == models@[first_clash(old(self)@, model_views(models@))]@.name
                    &&& final(self)@ == old(self)@
                },
                Ok(names) => {
                    &&& ddl_analysis(model_views(models@)).len() == 0
                    &&& first_clash(old(self)@, model_views(models@)) == models@.len()
                    &&& texts(names@) == model_names(model_views(models@))
                    &&& final(self)@ == old(self)@ + model_views(models@).map_values(
                        |m: ModelV| model_table(m),
                    )
                    &&& forall|i: int|
                        old(self)@.len() <= i < final(self)@.len() ==> (#[trigger] final(self)@[i]).primary_key
                            < final(self)@[i].columns.len()
                },
            },
    {
        let errors = analyze(models);
        proof {
            if repeats_a_name(model_views(models@)) && errors@.len() == 0 {
                assert(texts(errors@).len() == errors@.len());
                lemma_checked_names_distinct(model_views(models@));
            }
        }
        if errors.len() > 0 {
            assert(texts(errors@).len() == errors@.len());
            return Err(AdmitError::Invalid(errors));
        }
        assert(texts(errors@).len() == errors@.len());
        let ghost ms = model_views(models@);
        let n = models.len();
        let mut i: usize = 0;
        while i < n
            invariant
                i <= n,
                n == models@.len(),
                ms == model_views(models@),
                ddl_analysis(ms).len() == 0,
                self@ == old(self)@,
                forall|k: int| 0 <= k < i ==> !has_table(self@, #[trigger] ms[k].name),
                first_clash_from(self@, ms, i as int) == first_clash(self@, ms),
            decreases n - i,
        {
            if self.table_exists(models[i].name.as_str()) {
                return Err(AdmitError::TableExists(models[i].name.clone()));
            }
            i = i + 1;
        }
        proof {
            assert forall|k: int| 0 <= k < models@.len() implies !has_table(
                self@,
                #[trigger] models@[k]@.name,
            ) by {
                assert(ms[k].name == models@[k]@.name);
            }
        }
        let ghost start = self@;
        let mut names: Vec<String> = Vec::new();
        let mut j: usize = 0;
        while j < n
            invariant
                j <= n,
                n == models@.len(),
                ms == model_views(models@),
                forall|i: int| 0 <= i < models@.len() ==> (#[trigger] models@[i]).fields@.len() <= u32::MAX,
                start == old(self)@,
                self@ == start + ms.subrange(0, j as int).map_values(|m: ModelV| model_table(m)),
                texts(names@) == model_names(ms.subrange(0, j as int)),
            decreases n - j,
        {
            let table = table_of(&models[j]);
            let ghost before = self@;
            let ghost names_before = names@;
            self.add_table(table);
            names.push(models[j].name.clone());
            proof {
                assert(ms.subrange(0, j + 1) =~= ms.subrange(0, j as int).push(ms[j as int]));
                assert(ms.subrange(0, j + 1).map_values(|m: ModelV| model_table(m)) =~= ms.subrange(
                    0,
                    j as int,
                ).map_values(|m: ModelV| model_table(m)).push(model_table(ms[j as int])));
                assert(self@ =~= start + ms.subrange(0, j + 1).map_values(
                    |m: ModelV| model_table(m),
                ));
                assert(texts(names@) =~= texts(names_before).push(models@[j as int].name@));
                assert(texts(names@) =~= model_names(ms.subrange(0, j + 1)));
            }
            j = j + 1;
        }
        assert(ms.subrange(0, n as int) =~= ms);
        proof {
            lemma_checked_names_distinct(ms);
            if unique_names(start) {
                assert forall|a: int, b: int| 0 <= a < b < self@.len() implies self@[a].name
                    != self@[b].name by {
                    if b >= start.len() {
                        assert(self@[b] == model_table(ms[b - start.len()]));
                        if a >= start.len() {
                            assert(self@[a] == model_table(ms[a - start.len()]));
                        } else {
                            assert(self@[a] == start[a]);
                            if self@[a].name == self@[b].name {
                                assert(has_table(start, ms[b - start.len()].name));
                            }
                        }
                    } else {
                        assert(self@[a] == start[a]);
                        assert(self@[b] == start[b]);
                    }
                }
            }
            assert forall|i: int|
                start.len() <= i < self@.len() implies (#[trigger] self@[i]).primary_key
                < self@[i].columns.len() by {
                let k = i - start.len();
                lemma_checked_models_have_one_key(ms, k);
                lemma_model_table_key_valid(ms[k]);
                assert(self@[i] == model_table(ms[k]));
            }
        }
        Ok(names)
    }
}

} // verus!
