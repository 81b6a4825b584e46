use vstd::prelude::*;

use crate::error::PngDbError;
use crate::filter::{Query, matches_query, parse_query, parsed_query, query_parses, query_spec};
use crate::filter::sub_vec;
use crate::text::{chars_of, split, split_bounds, string_of, trim, trim_bounds};
use crate::value::Value;

verus! {

/// Field name to type label; descriptive only, never checked against payloads.
/// A well-formed schema (`wf`) names each field once.
#[derive(Clone, Debug, PartialEq)]
pub struct Schema {
    pub fields: Vec<(String, String)>,
}

/// Whether no two fields share a name.
pub open spec fn names_unique(fields: Seq<(String, String)>) -> bool {
    forall|i: int, j: int|
        0 <= i < j < fields.len() ==> (#[trigger] fields[i]).0@ != (#[trigger] fields[j]).0@
}

impl Schema {
    /// Each field name appears once.
    pub open spec fn wf(&self) -> bool {
        names_unique(self.fields@)
    }

    /// Whether each field name appears once.
    pub fn has_unique_names(&self) -> (r: bool)
        ensures
            r == self.wf(),
    {
        let mut i: usize = 0;
        while i < self.fields.len()
            invariant
                i <= self.fields@.len(),
                forall|a: int, b: int|
                    0 <= a < b < i ==> (#[trigger] self.fields@[a]).0@ != (
                    #[trigger] self.fields@[b]).0@,
            decreases self.fields@.len() - i,
        {
            let mut j: usize = 0;
            while j < i
                invariant
                    j <= i < self.fields@.len(),
                    forall|a: int| 0 <= a < j ==> (#[trigger] self.fields@[a]).0@ != self.fields@[i as int].0@,
                decreases i - j,
            {
                if self.fields[j].0 == self.fields[i].0 {
                    assert(self.fields@[j as int].0@ == self.fields@[i as int].0@);
                    return false;
                }
                j = j + 1;
            }
            i = i + 1;
        }
        true
    }
}

/// One record: a payload stored at a cell of the image.
#[derive(Debug, PartialEq)]
pub struct DataRow {
    pub x: u32,
    pub y: u32,
    pub data: Value,
}

/// Records addressed by the cells of a `width` by `height` image.
#[derive(Debug)]
pub struct PngDatabase {
    pub width: u32,
    pub height: u32,
    pub schema: Schema,
    pub rows: Vec<DataRow>,
}

/// The rows among the first `n` that meet `q`, in order, or the first error met.
pub open spec fn scan_spec(rows: Seq<DataRow>, q: Query, n: int) -> Result<Seq<DataRow>, PngDbError>
    decreases n,
{
    if n <= 0 {
        Ok(Seq::empty())
    } else {
        match scan_spec(rows, q, n - 1) {
            Ok(found) => match query_spec(rows[n - 1], q) {
                Ok(true) => Ok(found.push(rows[n - 1])),
                Ok(false) => Ok(found),
                Err(e) => Err(e),
            },
            Err(e) => Err(e),
        }
    }
}

/// The rows that a list of references points to.
pub open spec fn rows_of(v: Seq<&DataRow>) -> Seq<DataRow> {
    v.map_values(|r: &DataRow| *r)
}

/// The outcome of querying `rows` with `q`.
pub open spec fn select_spec(rows: Seq<DataRow>, q: Query) -> Result<Seq<DataRow>, PngDbError> {
    scan_spec(rows, q, rows.len() as int)
}

proof fn lemma_scan_settled(rows: Seq<DataRow>, q: Query, k: int, n: int)
    requires
        0 <= k <= n,
        scan_spec(rows, q, k) is Err,
    ensures
        scan_spec(rows, q, n) == scan_spec(rows, q, k),
    decreases n - k,
{
    if k < n {
        lemma_scan_settled(rows, q, k, n - 1);
    }
}

impl PngDatabase {
    pub fn new(width: u32, height: u32, schema: Schema) -> (r: Self)
        requires
            schema.wf(),
        ensures
            r.width == width,
            r.height == height,
            r.schema == schema,
            r.rows@.len() == 0,
    {
        PngDatabase { width, height, schema, rows: Vec::new() }
    }

    /// Adds a row at `(x, y)`; fails, leaving the store as it was, outside the bounds.
    pub fn insert(&mut self, x: u32, y: u32, data: Value) -> (r: Result<(), PngDbError>)
        ensures
            r is Err <==> (x >= old(self).width || y >= old(self).height),
            r matches Err(e) ==> e == (PngDbError::OutOfBounds { x, y }) && *final(self) == *old(self),
            r is Ok ==> final(self).rows@ == old(self).rows@.push((DataRow { x, y, data }))
                && final(self).width == old(self).width && final(self).height == old(self).height
                && final(self).schema == old(self).schema,
    {
        if x >= self.width || y >= self.height {
            return Err(PngDbError::OutOfBounds { x, y });
        }
        self.rows.push(DataRow { x, y, data });
        Ok(())
    }

    /// The rows that meet the parsed query `q`, in insertion order.
    pub fn query_with(&self, q: &Query) -> (r: Result<Vec<&DataRow>, PngDbError>)
        ensures
            r matches Ok(v) ==> select_spec(self.rows@, *q) == Ok::<Seq<DataRow>, PngDbError>(rows_of(v@)),
            r matches Err(e) ==> select_spec(self.rows@, *q) == Err::<Seq<DataRow>, PngDbError>(e),
    {
        let mut results: Vec<&DataRow> = Vec::new();
        let mut i: usize = 0;
        assert(rows_of(results@) =~= Seq::<DataRow>::empty());
        while i < self.rows.len()
            invariant
                i <= self.rows@.len(),
                scan_spec(self.rows@, *q, i as int) == Ok::<Seq<DataRow>, PngDbError>(rows_of(results@)),
            decreases self.rows@.len() - i,
        {
            let row = &self.rows[i];
            match matches_query(row, q) {
                Ok(true) => {
                    results.push(row);
                    assert(rows_of(results@) =~= scan_spec(self.rows@, *q, i as int)->Ok_0.push(
                        self.rows@[i as int],
                    ));
                },
                Ok(false) => {},
                Err(e) => {
                    proof {
                        lemma_scan_settled(self.rows@, *q, i + 1, self.rows@.len() as int);
                    }
                    return Err(e);
                },
            }
            i = i + 1;
        }
        Ok(results)
    }

    /// The rows that meet the filter text `query_str`, in insertion order.
    pub fn query(&self, query_str: &str) -> (r: Result<Vec<&DataRow>, PngDbError>)
        ensures
            !query_parses(query_str@) ==> (r matches Err(e) && e is QueryParse),
            r matches Ok(v) ==> exists|q: Query|
                #[trigger] parsed_query(query_str@, q) && select_spec(self.rows@, q) == Ok::<
                    Seq<DataRow>,
                    PngDbError,
                >(rows_of(v@)),
            r matches Err(e) ==> (!query_parses(query_str@) && e is QueryParse) || exists|q: Query|
                #[trigger] parsed_query(query_str@, q) && select_spec(self.rows@, q) == Err::<
                    Seq<DataRow>,
                    PngDbError,
                >(e),
    {
        let q = parse_query(query_str)?;
        self.query_with(&q)
    }
}


// ---------------------------------------------------------------- schema text

/// The `(name, label)` that one `name:label` definition gives, if it has exactly one `:`.
pub open spec fn field_def(d: Seq<char>) -> Option<(Seq<char>, Seq<char>)> {
    let parts = split(trim(d), seq![':']);
    if parts.len() == 2 {
        Some((trim(parts[0]), trim(parts[1])))
    } else {
        None
    }
}

/// The fields that the first `n` definitions give; a later definition of a name wins.
pub open spec fn defs_map(defs: Seq<Seq<char>>, n: int) -> Map<Seq<char>, Seq<char>>
    decreases n,
{
    if n <= 0 {
        Map::empty()
    } else {
        let m = defs_map(defs, n - 1);
        match field_def(defs[n - 1]) {
            Some((k, v)) => m.insert(k, v),
            None => m,
        }
    }
}

/// The fields that a text `name:label,name:label,...` defines.
pub open spec fn schema_text_map(s: Seq<char>) -> Map<Seq<char>, Seq<char>> {
    defs_map(split(s, seq![',']), split(s, seq![',']).len() as int)
}

/// Whether `fields` lists the entries of `m`, each name once.
pub open spec fn fields_match(fields: Seq<(String, String)>, m: Map<Seq<char>, Seq<char>>) -> bool {
    &&& forall|i: int, j: int|
        0 <= i < j < fields.len() ==> (#[trigger] fields[i]).0@ != (#[trigger] fields[j]).0@
    &&& forall|i: int|
        0 <= i < fields.len() ==> m.contains_key((#[trigger] fields[i]).0@) && m[fields[i].0@]
            == fields[i].1@
    &&& forall|k: Seq<char>|
        #[trigger] m.contains_key(k) ==> exists|i: int| 0 <= i < fields.len() && (#[trigger] fields[i]).0@ == k
}

fn upsert(fields: &mut Vec<(String, String)>, k: String, v: String, Ghost(m): Ghost<
    Map<Seq<char>, Seq<char>>,
>)
    requires
        fields_match(old(fields)@, m),
    ensures
        fields_match(final(fields)@, m.insert(k@, v@)),
{
    let mut i: usize = 0;
    while i < fields.len() && fields[i].0 != k
        invariant
            i <= fields@.len(),
            forall|j: int| 0 <= j < i ==> (#[trigger] fields@[j]).0@ != k@,
        decreases fields@.len() - i,
    {
        i = i + 1;
    }
    let ghost f0 = fields@;
    let ghost m2 = m.insert(k@, v@);
    if i < fields.len() {
        fields.set(i, (k, v));
        assert forall|k2: Seq<char>| #[trigger] m2.contains_key(k2) implies exists|j: int|
            0 <= j < fields@.len() && (#[trigger] fields@[j]).0@ == k2 by {
            if k2 != k@ {
                let j = choose|j: int| 0 <= j < f0.len() && (#[trigger] f0[j]).0@ == k2;
                assert(fields@[j].0@ == k2);
            } else {
                assert(fields@[i as int].0@ == k2);
            }
        }
    } else {
        fields.push((k, v));
        assert forall|k2: Seq<char>| #[trigger] m2.contains_key(k2) implies exists|j: int|
            0 <= j < fields@.len() && (#[trigger] fields@[j]).0@ == k2 by {
            if k2 != k@ {
                let j = choose|j: int| 0 <= j < f0.len() && (#[trigger] f0[j]).0@ == k2;
                assert(fields@[j].0@ == k2);
            } else {
                assert(fields@[f0.len() as int].0@ == k2);
            }
        }
    }
}

/// Reads schema fields from a text `name:label,name:label,...`. A definition
/// without exactly one `:` is passed over; a later definition of a name wins.
pub fn parse_schema(schema_str: &str) -> (r: Result<Vec<(String, String)>, PngDbError>)
    ensures
        r matches Ok(f) && fields_match(f@, schema_text_map(schema_str@)) && names_unique(f@),
{
    let cs = chars_of(schema_str);
    let comma = vec![','];
    assert(comma@ =~= seq![',']);
    let colon = vec![':'];
    assert(colon@ =~= seq![':']);
    let defs = split_bounds(&cs, comma.as_slice());
    let ghost ds = split(cs@, seq![',']);
    let mut fields: Vec<(String, String)> = Vec::new();
    let mut n: usize = 0;
    while n < defs.len()
        invariant
            n <= defs@.len() == ds.len(),
            ds == split(cs@, seq![',']),
            colon@ == seq![':'],
            forall|j: int|
                0 <= j < defs@.len() ==> (#[trigger] defs@[j]).0 <= defs@[j].1 <= cs@.len()
                    && cs@.subrange(defs@[j].0 as int, defs@[j].1 as int) == ds[j],
            fields_match(fields@, defs_map(ds, n as int)),
        decreases defs@.len() - n,
    {
        let (lo, hi) = defs[n];
        assert(defs@[n as int].0 <= defs@[n as int].1);
        let (a, b) = trim_bounds(&cs, lo, hi);
        let d = sub_vec(&cs, a, b);
        let parts = split_bounds(&d, colon.as_slice());
        if parts.len() == 2 {
            let (name_lo, name_hi) = parts[0];
            let (label_lo, label_hi) = parts[1];
            assert(parts@[0].0 <= parts@[0].1 && parts@[1].0 <= parts@[1].1);
            let (ka, kb) = trim_bounds(&d, name_lo, name_hi);
            let (va, vb) = trim_bounds(&d, label_lo, label_hi);
            let key = string_of(sub_vec(&d, ka, kb).as_slice());
            let label = string_of(sub_vec(&d, va, vb).as_slice());
            upsert(&mut fields, key, label, Ghost(defs_map(ds, n as int)));
        }
        n = n + 1;
    }
    Ok(fields)
}


/// A query that no row meets gives an empty list, not an error.
pub proof fn lemma_empty_result(rows: Seq<DataRow>, q: Query)
    requires
        forall|i: int| 0 <= i < rows.len() ==> query_spec(#[trigger] rows[i], q) == Ok::<
            bool,
            PngDbError,
        >(false),
    ensures
        select_spec(rows, q) == Ok::<Seq<DataRow>, PngDbError>(Seq::empty()),
{
    lemma_empty_prefix(rows, q, rows.len() as int);
}

proof fn lemma_empty_prefix(rows: Seq<DataRow>, q: Query, n: int)
    requires
        0 <= n <= rows.len(),
        forall|i: int| 0 <= i < rows.len() ==> query_spec(#[trigger] rows[i], q) == Ok::<
            bool,
            PngDbError,
        >(false),
    ensures
        scan_spec(rows, q, n) == Ok::<Seq<DataRow>, PngDbError>(Seq::empty()),
    decreases n,
{
    if n > 0 {
        lemma_empty_prefix(rows, q, n - 1);
        assert(query_spec(rows[n - 1], q) == Ok::<bool, PngDbError>(false));
    }
}

} // verus!
