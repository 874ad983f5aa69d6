//! The relational bridge's decision logic: building the parameterized
//! upsert statement for egress, and the typed row accumulator with its
//! byte-size chunking rule for ingest. The driver I/O around these runs
//! outside the library and hands plain values in and out.

use vstd::prelude::*;
use vstd::string::StringExecFns;
use crate::Error;
use crate::df::DataFrame;
use crate::series::{Cell, CellV, DataType, DataTypeV, Series, TimeUnit};

verus! {

/// Egress configuration: the target table, optional engine-specific
/// parameters, the declared key columns, and per-field settings.
pub struct Params {
    pub table: String,
    pub postgres: Option<PgParams>,
    pub keys: Vec<String>,
    pub fields: Option<Vec<(String, FieldParams)>>,
}

/// Per-field egress settings.
pub struct FieldParams {
    /// The field is part of the conflict key.
    pub key: bool,
    /// The field's text holds JSON and is bound as structured JSON.
    pub json: bool,
}

/// Engine-specific egress parameters.
pub struct PgParams {
    pub schema: Option<String>,
}

/// The decimal digit character for one digit value.
pub open spec fn spec_digit(d: nat) -> char {
    if d == 0 {
        '0'
    } else if d == 1 {
        '1'
    } else if d == 2 {
        '2'
    } else if d == 3 {
        '3'
    } else if d == 4 {
        '4'
    } else if d == 5 {
        '5'
    } else if d == 6 {
        '6'
    } else if d == 7 {
        '7'
    } else if d == 8 {
        '8'
    } else {
        '9'
    }
}

/// The decimal digits of `n`, most significant first.
pub open spec fn spec_dec(n: nat) -> Seq<char>
    decreases n,
{
    if n < 10 {
        seq![spec_digit(n)]
    } else {
        spec_dec(n / 10).push(spec_digit(n % 10))
    }
}

/// A quoted identifier.
pub open spec fn spec_quoted(v: Seq<char>) -> Seq<char> {
    "\""@ + v + "\""@
}

/// Quoted identifiers joined with commas.
pub open spec fn spec_join(vals: Seq<Seq<char>>) -> Seq<char>
    decreases vals.len(),
{
    if vals.len() == 0 {
        Seq::<char>::empty()
    } else if vals.len() == 1 {
        spec_quoted(vals[0])
    } else {
        spec_join(vals.drop_last()) + ","@ + spec_quoted(vals.last())
    }
}

/// The positional parameter list `$1,...,$k`.
pub open spec fn spec_vals(k: nat) -> Seq<char>
    decreases k,
{
    if k == 0 {
        Seq::<char>::empty()
    } else if k == 1 {
        "$"@ + spec_dec(1)
    } else {
        spec_vals((k - 1) as nat) + ","@ + "$"@ + spec_dec(k)
    }
}

/// The conflict-update assignments `"a"=EXCLUDED."a",...`.
pub open spec fn spec_excluded(vals: Seq<Seq<char>>) -> Seq<char>
    decreases vals.len(),
{
    if vals.len() == 0 {
        Seq::<char>::empty()
    } else if vals.len() == 1 {
        spec_quoted(vals[0]) + "=EXCLUDED."@ + spec_quoted(vals[0])
    } else {
        spec_excluded(vals.drop_last()) + ","@ + spec_quoted(vals.last()) + "=EXCLUDED."@
            + spec_quoted(vals.last())
    }
}

/// An identifier is clean when it holds no quote character.
pub open spec fn spec_name_ok(s: Seq<char>) -> bool {
    forall|i: int| 0 <= i < s.len() ==> s[i] != '"' && s[i] != '\'' && s[i] != '`'
}

/// Whether `name` occurs among `keys`.
pub open spec fn spec_contains_str(keys: Seq<Seq<char>>, name: Seq<char>) -> bool {
    exists|i: int| 0 <= i < keys.len() && keys[i] == name
}

/// The non-key columns, in column order.
pub open spec fn spec_data_cols(cols: Seq<Seq<char>>, keys: Seq<Seq<char>>) -> Seq<Seq<char>>
    decreases cols.len(),
{
    if cols.len() == 0 {
        Seq::<Seq<char>>::empty()
    } else if spec_contains_str(keys, cols.last()) {
        spec_data_cols(cols.drop_last(), keys)
    } else {
        spec_data_cols(cols.drop_last(), keys).push(cols.last())
    }
}

/// The whole parameterized statement: an INSERT over the quoted table (and
/// optional schema) and columns, with one positional parameter per column,
/// and, when key columns are declared, an upsert clause updating every
/// non-key column on conflict.
pub open spec fn spec_insert_query(
    table: Seq<char>,
    schema: Option<Seq<char>>,
    cols: Seq<Seq<char>>,
    keys: Seq<Seq<char>>,
) -> Seq<char> {
    let head = "INSERT INTO "@ + (match schema {
        Some(s) => spec_quoted(s) + "."@,
        None => Seq::<char>::empty(),
    }) + spec_quoted(table) + "("@ + spec_join(cols) + ") VALUES ("@ + spec_vals(cols.len())
        + ")"@;
    if keys.len() > 0 {
        head + " ON CONFLICT ("@ + spec_join(keys) + ") DO UPDATE SET "@ + spec_excluded(
            spec_data_cols(cols, keys),
        )
    } else {
        head
    }
}

/// One decimal digit as text. Relies on nothing outside this crate.
fn digit_str(d: u64) -> (r: &'static str)
    requires
        d < 10,
    ensures
        r@ =~= seq![spec_digit(d as nat)],
{
    let s: &'static str = match d {
        0 => "0",
        1 => "1",
        2 => "2",
        3 => "3",
        4 => "4",
        5 => "5",
        6 => "6",
        7 => "7",
        8 => "8",
        _ => "9",
    };
    proof {
        reveal_strlit("0");
        reveal_strlit("1");
        reveal_strlit("2");
        reveal_strlit("3");
        reveal_strlit("4");
        reveal_strlit("5");
        reveal_strlit("6");
        reveal_strlit("7");
        reveal_strlit("8");
        reveal_strlit("9");
    }
    s
}

/// `x` in decimal.
pub fn u64_dec(x: u64) -> (r: String)
    ensures
        r@ == spec_dec(x as nat),
    decreases x,
{
    if x < 10 {
        let r = digit_str(x).to_owned();
        proof {
            assert(r@ =~= spec_dec(x as nat));
        }
        r
    } else {
        let mut s = u64_dec(x / 10);
        s.append(digit_str(x % 10));
        proof {
            assert(s@ =~= spec_dec((x / 10) as nat).push(spec_digit((x % 10) as nat)));
        }
        s
    }
}

/// Whether an identifier is free of quote characters.
pub fn name_ok(s: &str) -> (r: bool)
    ensures
        r == spec_name_ok(s@),
{
    let n = s.unicode_len();
    let mut i: usize = 0;
    while i < n
        invariant
            n == s@.len(),
            i <= n,
            forall|j: int| 0 <= j < i ==> s@[j] != '"' && s@[j] != '\'' && s@[j] != '`',
        decreases n - i,
    {
        let c = s.get_char(i);
        if c == '"' || c == '\'' || c == '`' {
            return false;
        }
        i += 1;
    }
    true
}

/// Join quoted identifiers with commas.
pub fn pg_join(vals: &Vec<String>) -> (r: Result<String, Error>)
    ensures
        r matches Ok(s) && s@ == spec_join(vals@.map(|i: int, v: String| v@)),
{
    let ghost vs = vals@.map(|i: int, v: String| v@);
    let mut s = String::new();
    let n = vals.len();
    let mut i: usize = 0;
    proof {
        assert(vs.take(0) =~= Seq::<Seq<char>>::empty());
    }
    while i < n
        invariant
            vs == vals@.map(|q: int, v: String| v@),
            n == vals@.len(),
            i <= n,
            s@ == spec_join(vs.take(i as int)),
            i > 0 ==> s@.len() > 0,
        decreases n - i,
    {
        proof {
            assert(vs.take(i + 1).drop_last() =~= vs.take(i as int));
            assert(vs.take(i + 1).last() == vs[i as int]);
        }
        if i > 0 {
            s.append(",");
        }
        s.append("\"");
        s.append(vals[i].as_str());
        s.append("\"");
        proof {
            reveal_strlit("\"");
            assert(s@ =~= spec_join(vs.take(i + 1)));
        }
        i += 1;
    }
    proof {
        assert(vs.take(n as int) =~= vs);
    }
    Ok(s)
}

/// The positional parameter list `$1,...,$len`.
pub fn pg_vals(len: usize) -> (r: Result<String, Error>)
    ensures
        r matches Ok(s) && s@ == spec_vals(len as nat),
{
    let mut s = String::new();
    let mut i: usize = 0;
    while i < len
        invariant
            i <= len,
            s@ == spec_vals(i as nat),
            i > 0 ==> s@.len() > 0,
        decreases len - i,
    {
        if i > 0 {
            s.append(",");
        }
        s.append("$");
        let d = u64_dec((i + 1) as u64);
        s.append(d.as_str());
        proof {
            assert(spec_dec((i + 1) as nat).len() > 0) by {
                lemma_dec_len((i + 1) as nat);
            }
            assert(s@ =~= spec_vals((i + 1) as nat));
        }
        i += 1;
    }
    Ok(s)
}

proof fn lemma_dec_len(n: nat)
    ensures
        spec_dec(n).len() > 0,
    decreases n,
{
    if n >= 10 {
        lemma_dec_len(n / 10);
    }
}

/// The conflict-update assignment list.
pub fn pg_excluded(vals: &Vec<String>) -> (r: Result<String, Error>)
    ensures
        r matches Ok(s) && s@ == spec_excluded(vals@.map(|i: int, v: String| v@)),
{
    let ghost vs = vals@.map(|i: int, v: String| v@);
    let mut s = String::new();
    let n = vals.len();
    let mut i: usize = 0;
    proof {
        assert(vs.take(0) =~= Seq::<Seq<char>>::empty());
    }
    while i < n
        invariant
            vs == vals@.map(|q: int, v: String| v@),
            n == vals@.len(),
            i <= n,
            s@ == spec_excluded(vs.take(i as int)),
            i > 0 ==> s@.len() > 0,
        decreases n - i,
    {
        proof {
            assert(vs.take(i + 1).drop_last() =~= vs.take(i as int));
            assert(vs.take(i + 1).last() == vs[i as int]);
        }
        if i > 0 {
            s.append(",");
        }
        s.append("\"");
        s.append(vals[i].as_str());
        s.append("\"=EXCLUDED.\"");
        s.append(vals[i].as_str());
        s.append("\"");
        proof {
            reveal_strlit("\"");
            reveal_strlit("\"=EXCLUDED.\"");
            assert(("\"=EXCLUDED.\"")@ =~= "\""@ + "=EXCLUDED."@ + "\""@) by {
                reveal_strlit("=EXCLUDED.");
            }
            assert(s@ =~= spec_excluded(vs.take(i + 1)));
        }
        i += 1;
    }
    proof {
        assert(vs.take(n as int) =~= vs);
    }
    Ok(s)
}

/// Whether `name` occurs among `keys`.
pub fn contains_str(keys: &Vec<String>, name: &String) -> (r: bool)
    ensures
        r == spec_contains_str(keys@.map(|i: int, v: String| v@), name@),
{
    let ghost ks = keys@.map(|i: int, v: String| v@);
    let n = keys.len();
    let mut i: usize = 0;
    while i < n
        invariant
            ks == keys@.map(|q: int, v: String| v@),
            n == keys@.len(),
            i <= n,
            forall|j: int| 0 <= j < i ==> ks[j] != name@,
        decreases n - i,
    {
        if keys[i].eq(name) {
            proof {
                assert(ks[i as int] == name@);
            }
            return true;
        }
        i += 1;
    }
    false
}

/// The key columns in force: the declared keys followed by every per-field
/// entry marked as a key that is not already among them.
pub open spec fn spec_effective_keys(
    keys: Seq<Seq<char>>,
    fields: Seq<(Seq<char>, FieldParams)>,
) -> Seq<Seq<char>>
    decreases fields.len(),
{
    if fields.len() == 0 {
        keys
    } else {
        let pre = spec_effective_keys(keys, fields.drop_last());
        if fields.last().1.key && !spec_contains_str(pre, fields.last().0) {
            pre.push(fields.last().0)
        } else {
            pre
        }
    }
}

impl Params {
    /// The per-field entries, or none.
    pub open spec fn spec_fields(self) -> Seq<(Seq<char>, FieldParams)> {
        match self.fields {
            Some(fs) => fs@.map(|i: int, e: (String, FieldParams)| (e.0@, e.1)),
            None => Seq::<(Seq<char>, FieldParams)>::empty(),
        }
    }

    /// The key columns in force.
    pub fn effective_keys(&self) -> (r: Vec<String>)
        ensures
            r@.map(|i: int, v: String| v@) == spec_effective_keys(
                self.keys@.map(|i: int, v: String| v@),
                self.spec_fields(),
            ),
    {
        let mut out: Vec<String> = Vec::new();
        let kn = self.keys.len();
        let mut i: usize = 0;
        while i < kn
            invariant
                kn == self.keys@.len(),
                i <= kn,
                out@.len() == i,
                forall|j: int| 0 <= j < i ==> (#[trigger] out@[j])@ == self.keys@[j]@,
            decreases kn - i,
        {
            out.push(self.keys[i].clone());
            i += 1;
        }
        proof {
            assert(out@.map(|q: int, v: String| v@) =~= self.keys@.map(|q: int, v: String| v@));
        }
        match self.fields.as_ref() {
            None => {
                proof {
                    assert(self.spec_fields() =~= Seq::<(Seq<char>, FieldParams)>::empty());
                }
                out
            },
            Some(fs) => {
                let ghost fseq = self.spec_fields();
                let fn_ = fs.len();
                proof {
                    assert(fseq.take(0) =~= Seq::<(Seq<char>, FieldParams)>::empty());
                    assert(out@.map(|q: int, v: String| v@) == spec_effective_keys(
                        self.keys@.map(|q: int, v: String| v@),
                        fseq.take(0),
                    ));
                }
                let mut t: usize = 0;
                while t < fn_
                    invariant
                        fn_ == fs@.len(),
                        self.fields is Some,
                        self.fields.unwrap()@ == fs@,
                        fseq == self.spec_fields(),
                        fseq.len() == fn_,
                        t <= fn_,
                        out@.map(|q: int, v: String| v@) == spec_effective_keys(
                            self.keys@.map(|q: int, v: String| v@),
                            fseq.take(t as int),
                        ),
                    decreases fn_ - t,
                {
                    proof {
                        assert(fseq.take(t + 1).drop_last() =~= fseq.take(t as int));
                        assert(fseq.take(t + 1).last() == fseq[t as int]);
                        assert(self.fields is Some);
                        assert(self.fields.unwrap()@ == fs@);
                        assert(fseq[t as int] == (fs@[t as int].0@, fs@[t as int].1));
                    }
                    if fs[t].1.key && !contains_str(&out, &fs[t].0) {
                        let ghost before = out@.map(|q: int, v: String| v@);
                        out.push(fs[t].0.clone());
                        proof {
                            assert(out@.map(|q: int, v: String| v@) =~= before.push(
                                fs@[t as int].0@,
                            ));
                        }
                    }
                    t += 1;
                }
                proof {
                    assert(fseq.take(fn_ as int) =~= fseq);
                }
                out
            },
        }
    }

    /// Whether `name` is marked as a JSON field.
    pub open spec fn spec_is_json(self, name: Seq<char>) -> bool {
        exists|i: int|
            0 <= i < self.spec_fields().len() && (#[trigger] self.spec_fields()[i]).0 == name
                && self.spec_fields()[i].1.json
    }

    /// Whether `name` is marked as a JSON field.
    pub fn is_json_field(&self, name: &String) -> (r: bool)
        ensures
            r == self.spec_is_json(name@),
    {
        match self.fields.as_ref() {
            None => {
                proof {
                    assert(self.spec_fields() =~= Seq::<(Seq<char>, FieldParams)>::empty());
                }
                false
            },
            Some(fs) => {
                let ghost fseq = self.spec_fields();
                let n = fs.len();
                let mut i: usize = 0;
                while i < n
                    invariant
                        n == fs@.len(),
                        self.fields is Some,
                        self.fields.unwrap()@ == fs@,
                        fseq == self.spec_fields(),
                        fseq.len() == n,
                        i <= n,
                        forall|j: int|
                            0 <= j < i ==> !((#[trigger] fseq[j]).0 == name@ && fseq[j].1.json),
                    decreases n - i,
                {
                    proof {
                        assert(self.fields is Some);
                        assert(self.fields.unwrap()@ == fs@);
                        assert(fseq[i as int] == (fs@[i as int].0@, fs@[i as int].1));
                    }
                    if fs[i].1.json && fs[i].0.eq(name) {
                        proof {
                            assert(fseq[i as int].0 == name@ && fseq[i as int].1.json);
                        }
                        return true;
                    }
                    i += 1;
                }
                false
            },
        }
    }
}

/// Build the parameterized egress statement for one store.
///
/// Every identifier is validated against the forbidden quote characters;
/// a violation fails with a naming error and nothing else does.
pub fn build_insert_query(
    table: &String,
    schema: Option<&String>,
    cols: &Vec<String>,
    keys: &Vec<String>,
) -> (r: Result<String, Error>)
    ensures
        match r {
            Ok(s) => {
                &&& s@ == spec_insert_query(
                    table@,
                    match schema {
                        Some(sc) => Some(sc@),
                        None => None,
                    },
                    cols@.map(|i: int, v: String| v@),
                    keys@.map(|i: int, v: String| v@),
                )
                &&& spec_name_ok(table@)
                &&& (schema matches Some(sc) ==> spec_name_ok(sc@))
                &&& forall|i: int| 0 <= i < cols@.len() ==> spec_name_ok((#[trigger] cols@[i])@)
            },
            Err(e) => {
                &&& e matches Error::Other(_)
                &&& {
                    ||| !spec_name_ok(table@)
                    ||| (schema matches Some(sc) && !spec_name_ok(sc@))
                    ||| exists|i: int| 0 <= i < cols@.len() && !spec_name_ok((#[trigger] cols@[i])@)
                }
            },
        },
{
    if !name_ok(table.as_str()) {
        return Err(Error::Other(String::from_str("table name contains invalid symbols")));
    }
    let mut n = cols.len();
    let mut i: usize = 0;
    while i < n
        invariant
            n == cols@.len(),
            i <= n,
            forall|j: int| 0 <= j < i ==> spec_name_ok((#[trigger] cols@[j])@),
        decreases n - i,
    {
        if !name_ok(cols[i].as_str()) {
            return Err(Error::Other(String::from_str("column name contains invalid symbols")));
        }
        i += 1;
    }
    let mut q = String::new();
    q.append("INSERT INTO ");
    match schema {
        Some(sc) => {
            if !name_ok(sc.as_str()) {
                return Err(Error::Other(String::from_str("schema name contains invalid symbols")));
            }
            q.append("\"");
            q.append(sc.as_str());
            q.append("\".");
        },
        None => {},
    }
    q.append("\"");
    q.append(table.as_str());
    q.append("\"(");
    let joined = pg_join(cols)?;
    q.append(joined.as_str());
    q.append(") VALUES (");
    let vals = pg_vals(cols.len())?;
    q.append(vals.as_str());
    q.append(")");
    if keys.len() > 0 {
        q.append(" ON CONFLICT (");
        let kj = pg_join(keys)?;
        q.append(kj.as_str());
        q.append(") DO UPDATE SET ");
        let data_cols = filter_data_cols(cols, keys);
        let ex = pg_excluded(&data_cols)?;
        q.append(ex.as_str());
    }
    proof {
        reveal_strlit("\"");
        reveal_strlit("\".");
        reveal_strlit("\"(");
        reveal_strlit(".");
        reveal_strlit("(");
        reveal_strlit(") VALUES (");
        reveal_strlit(")");
        assert(("\".")@ =~= "\""@ + "."@);
        assert(("\"(")@ =~= "\""@ + "("@);
        assert(q@ =~= spec_insert_query(
            table@,
            match schema {
                Some(sc) => Some(sc@),
                None => None,
            },
            cols@.map(|i: int, v: String| v@),
            keys@.map(|i: int, v: String| v@),
        ));
    }
    Ok(q)
}

/// The non-key columns, in column order.
fn filter_data_cols(cols: &Vec<String>, keys: &Vec<String>) -> (r: Vec<String>)
    ensures
        r@.map(|i: int, v: String| v@) == spec_data_cols(
            cols@.map(|i: int, v: String| v@),
            keys@.map(|i: int, v: String| v@),
        ),
{
    let ghost cs = cols@.map(|i: int, v: String| v@);
    let ghost ks = keys@.map(|i: int, v: String| v@);
    let mut out: Vec<String> = Vec::new();
    let n = cols.len();
    let mut i: usize = 0;
    proof {
        assert(cs.take(0) =~= Seq::<Seq<char>>::empty());
        assert(out@.map(|q: int, v: String| v@) =~= spec_data_cols(cs.take(0), ks));
    }
    while i < n
        invariant
            cs == cols@.map(|q: int, v: String| v@),
            ks == keys@.map(|q: int, v: String| v@),
            n == cols@.len(),
            i <= n,
            out@.map(|q: int, v: String| v@) == spec_data_cols(cs.take(i as int), ks),
        decreases n - i,
    {
        proof {
            assert(cs.take(i + 1).drop_last() =~= cs.take(i as int));
            assert(cs.take(i + 1).last() == cs[i as int]);
        }
        if !contains_str(keys, &cols[i]) {
            let ghost before = out@.map(|q: int, v: String| v@);
            out.push(cols[i].clone());
            proof {
                assert(out@.map(|q: int, v: String| v@) =~= before.push(cs[i as int]));
            }
        }
        i += 1;
    }
    proof {
        assert(cs.take(n as int) =~= cs);
    }
    out
}


/// The native and declared logical types for a relational driver type name,
/// or nothing when the driver type is not supported. Timestamps, with or
/// without a zone, are normalized to nanosecond 64-bit integers; character
/// and JSON columns arrive as text.
pub open spec fn spec_col_kind(t: Seq<char>) -> Option<(DataTypeV, DataTypeV)> {
    if t == "BOOL"@ {
        Some((DataTypeV::Boolean, DataTypeV::Boolean))
    } else if t == "INT2"@ {
        Some((DataTypeV::Int16, DataTypeV::Int16))
    } else if t == "INT4"@ {
        Some((DataTypeV::Int32, DataTypeV::Int32))
    } else if t == "INT8"@ {
        Some((DataTypeV::Int64, DataTypeV::Int64))
    } else if t == "TIMESTAMP"@ || t == "TIMESTAMPTZ"@ {
        Some(
            (
                DataTypeV::Int64,
                DataTypeV::Timestamp(TimeUnit::Nanosecond, Option::<Seq<char>>::None),
            ),
        )
    } else if t == "FLOAT4"@ {
        Some((DataTypeV::Float32, DataTypeV::Float32))
    } else if t == "FLOAT8"@ {
        Some((DataTypeV::Float64, DataTypeV::Float64))
    } else if t == "VARCHAR"@ || t == "CHAR"@ || t == "JSON"@ || t == "JSONB"@ {
        Some((DataTypeV::LargeUtf8, DataTypeV::LargeUtf8))
    } else {
        None
    }
}

/// Fixed per-value accumulation size of a native type.
pub open spec fn spec_fixed_size(dt: DataTypeV) -> int {
    match dt {
        DataTypeV::Boolean => 1,
        DataTypeV::Int8 => 1,
        DataTypeV::Int16 => 2,
        DataTypeV::Int32 => 4,
        DataTypeV::Int64 => 8,
        DataTypeV::Timestamp(_, _) => 8,
        DataTypeV::UInt8 => 1,
        DataTypeV::UInt16 => 2,
        DataTypeV::UInt32 => 4,
        DataTypeV::UInt64 => 8,
        DataTypeV::Float32 => 4,
        DataTypeV::Float64 => 8,
        DataTypeV::Utf8 => 1,
        DataTypeV::LargeUtf8 => 1,
    }
}

/// Accumulated size of one value: fixed width for the sized types, the
/// encoded byte length for text, one byte for a null text value.
pub open spec fn spec_push_size(dt: DataTypeV, c: CellV) -> int {
    match c {
        CellV::Str(s) => vstd::utf8::encode_utf8(s).len() as int,
        _ => spec_fixed_size(dt),
    }
}

/// Accumulated size of a column's pending values.
pub open spec fn spec_col_size(dt: DataTypeV, cells: Seq<CellV>) -> int
    decreases cells.len(),
{
    if cells.len() == 0 {
        0
    } else {
        spec_col_size(dt, cells.drop_last()) + spec_push_size(dt, cells.last())
    }
}

/// One ingest column: its position in the row, its types, and the pending
/// values with their accumulated approximate byte size.
pub struct Col {
    index: usize,
    native: DataType,
    declared: DataType,
    cells: Vec<Cell>,
    size: u64,
}

impl Col {
    /// Pending values.
    pub closed spec fn spec_cells(self) -> Seq<CellV> {
        self.cells@.map(|i: int, c: Cell| c@)
    }

    /// Native storage type.
    pub closed spec fn spec_native(self) -> DataTypeV {
        self.native@
    }

    /// Declared logical type.
    pub closed spec fn spec_declared(self) -> DataTypeV {
        self.declared@
    }

    /// Tracked accumulated size.
    pub closed spec fn spec_size(self) -> int {
        self.size as int
    }

    /// Position in the row.
    pub closed spec fn spec_index(self) -> int {
        self.index as int
    }

    /// Every pending value matches the native type, and the tracked size is
    /// the accumulated size of the pending values.
    pub open spec fn wf(self) -> bool {
        &&& forall|i: int|
            0 <= i < self.spec_cells().len() ==> crate::series::cell_ok(
                self.spec_native(),
                #[trigger] self.spec_cells()[i],
            )
        &&& self.spec_size() == spec_col_size(self.spec_native(), self.spec_cells())
    }

    /// Start a column for a driver type name; fails with `Unimplemented`
    /// exactly on an unsupported name, echoing the name.
    pub fn create(index: usize, type_id: &str) -> (r: Result<Col, Error>)
        ensures
            match r {
                Ok(c) => {
                    &&& spec_col_kind(type_id@) matches Some(k) && c.spec_native() == k.0
                        && c.spec_declared() == k.1
                    &&& c.spec_cells() =~= Seq::<CellV>::empty()
                    &&& c.spec_size() == 0
                    &&& c.spec_index() == index
                    &&& c.wf()
                },
                Err(e) => {
                    &&& spec_col_kind(type_id@) is None
                    &&& e matches Error::Unimplemented(s) && s@ == type_id@
                },
            },
    {
        let key = type_id.to_owned();
        let pair: Option<(DataType, DataType)> = if key.eq(&String::from_str("BOOL")) {
            Some((DataType::Boolean, DataType::Boolean))
        } else if key.eq(&String::from_str("INT2")) {
            Some((DataType::Int16, DataType::Int16))
        } else if key.eq(&String::from_str("INT4")) {
            Some((DataType::Int32, DataType::Int32))
        } else if key.eq(&String::from_str("INT8")) {
            Some((DataType::Int64, DataType::Int64))
        } else if key.eq(&String::from_str("TIMESTAMP")) || key.eq(&String::from_str(
            "TIMESTAMPTZ",
        )) {
            Some(
                (
                    DataType::Int64,
                    DataType::Timestamp(TimeUnit::Nanosecond, Option::<String>::None),
                ),
            )
        } else if key.eq(&String::from_str("FLOAT4")) {
            Some((DataType::Float32, DataType::Float32))
        } else if key.eq(&String::from_str("FLOAT8")) {
            Some((DataType::Float64, DataType::Float64))
        } else if key.eq(&String::from_str("VARCHAR")) || key.eq(&String::from_str("CHAR"))
            || key.eq(&String::from_str("JSON")) || key.eq(&String::from_str("JSONB")) {
            Some((DataType::LargeUtf8, DataType::LargeUtf8))
        } else {
            None
        };
        match pair {
            Some((native, declared)) => {
                let c = Col { index, native, declared, cells: Vec::new(), size: 0 };
                proof {
                    assert(c.spec_cells() =~= Seq::<CellV>::empty());
                }
                Ok(c)
            },
            None => Err(Error::Unimplemented(key)),
        }
    }

    /// Number of pending values.
    pub fn len(&self) -> (r: usize)
        ensures
            r == self.spec_cells().len(),
    {
        self.cells.len()
    }

    /// Tracked accumulated size.
    pub fn size(&self) -> (r: u64)
        ensures
            r == self.spec_size(),
    {
        self.size
    }

    /// Whether a value can enter this column.
    pub fn accepts(&self, cell: &Cell) -> (r: bool)
        ensures
            r == crate::series::cell_ok(self.spec_native(), cell@),
    {
        cell.matches_type(&self.native)
    }

    /// Append one value; fails with `TypeMismatch` exactly when the value
    /// does not match the native type.
    pub fn push(&mut self, cell: Cell) -> (r: Result<(), Error>)
        requires
            old(self).wf(),
            old(self).spec_size() + spec_push_size(old(self).spec_native(), cell@) <= u64::MAX,
            cell@ matches CellV::Str(s) ==> vstd::utf8::encode_utf8(s).len() <= usize::MAX,
        ensures
            final(self).wf(),
            final(self).spec_native() == old(self).spec_native(),
            final(self).spec_declared() == old(self).spec_declared(),
            final(self).spec_index() == old(self).spec_index(),
            match r {
                Ok(()) => {
                    &&& crate::series::cell_ok(old(self).spec_native(), cell@)
                    &&& final(self).spec_cells() =~= old(self).spec_cells().push(cell@)
                    &&& final(self).spec_size() == old(self).spec_size() + spec_push_size(
                        old(self).spec_native(),
                        cell@,
                    )
                },
                Err(e) => {
                    &&& e == Error::TypeMismatch
                    &&& !crate::series::cell_ok(old(self).spec_native(), cell@)
                    &&& *final(self) == *old(self)
                },
            },
    {
        if !cell.matches_type(&self.native) {
            return Err(Error::TypeMismatch);
        }
        let delta: u64 = match &cell {
            Cell::Str(s) => s.as_str().len() as u64,
            _ => match &self.native {
                DataType::Boolean => 1,
                DataType::Int8 => 1,
                DataType::Int16 => 2,
                DataType::Int32 => 4,
                DataType::Int64 => 8,
                DataType::Timestamp(_, _) => 8,
                DataType::UInt8 => 1,
                DataType::UInt16 => 2,
                DataType::UInt32 => 4,
                DataType::UInt64 => 8,
                DataType::Float32 => 4,
                DataType::Float64 => 8,
                DataType::Utf8 => 1,
                DataType::LargeUtf8 => 1,
            },
        };
        proof {
            assert(delta == spec_push_size(self.spec_native(), cell@));
        }
        let ghost before = self.spec_cells();
        self.cells.push(cell);
        self.size = self.size + delta;
        proof {
            assert(self.spec_cells() =~= before.push(cell@));
            assert(self.spec_cells().drop_last() =~= before);
        }
        Ok(())
    }

    /// Take the pending values out as a column of the native type paired
    /// with the declared type, leaving this accumulator empty.
    pub fn flush(&mut self) -> (r: (Series, DataType))
        requires
            old(self).wf(),
        ensures
            final(self).wf(),
            final(self).spec_native() == old(self).spec_native(),
            final(self).spec_declared() == old(self).spec_declared(),
            final(self).spec_index() == old(self).spec_index(),
            final(self).spec_cells() =~= Seq::<CellV>::empty(),
            final(self).spec_size() == 0,
            r.0.wf(),
            r.0@ =~= old(self).spec_cells(),
            r.0.spec_dtype() == old(self).spec_native(),
            r.1@ == old(self).spec_declared(),
    {
        let n = self.cells.len();
        let mut taken: Vec<Cell> = Vec::new();
        let mut i: usize = 0;
        while i < n
            invariant
                n == self.cells@.len(),
                i <= n,
                taken@.len() == i,
                forall|j: int| 0 <= j < i ==> (#[trigger] taken@[j])@ == self.spec_cells()[j],
            decreases n - i,
        {
            taken.push(self.cells[i].duplicate());
            i += 1;
        }
        let ghost tseq = taken@;
        let series = match Series::new(self.native.duplicate(), taken) {
            Ok(s) => s,
            Err(_) => {
                proof {
                    let i = choose|i: int|
                        0 <= i < tseq.len() && !crate::series::cell_ok(
                            self.spec_native(),
                            tseq[i]@,
                        );
                    assert(tseq[i]@ == self.spec_cells()[i]);
                    assert(crate::series::cell_ok(self.spec_native(), self.spec_cells()[i]));
                    assert(false);
                }
                Series::new_empty(self.native.duplicate())
            },
        };
        self.cells = Vec::new();
        self.size = 0;
        let declared = self.declared.duplicate();
        proof {
            assert(self.spec_cells() =~= Seq::<CellV>::empty());
            assert(series@ =~= old(self).spec_cells());
        }
        (series, declared)
    }

    /// The pending values as a column of the native type, paired with the
    /// declared type.
    pub fn into_series_type(self) -> (r: (Series, DataType))
        requires
            self.wf(),
        ensures
            r.0.wf(),
            r.0@ =~= self.spec_cells(),
            r.0.spec_dtype() == self.spec_native(),
            r.1@ == self.spec_declared(),
    {
        let Col { index, native, declared, cells, size } = self;
        let ghost gcells = cells@;
        let series = match Series::new(native, cells) {
            Ok(s) => s,
            Err(_) => {
                proof {
                    let i = choose|i: int|
                        0 <= i < gcells.len() && !crate::series::cell_ok(
                            self.spec_native(),
                            gcells[i]@,
                        );
                    assert(gcells[i]@ == self.spec_cells()[i]);
                    assert(crate::series::cell_ok(self.spec_native(), self.spec_cells()[i]));
                    assert(false);
                }
                Series::new_empty(DataType::Boolean)
            },
        };
        (series, declared)
    }
}

/// Assemble the accumulated columns into one store; fails with
/// `RowsNotMatch` exactly when the columns' pending lengths disagree.
pub fn create_df(cols: Vec<(String, Col)>) -> (r: Result<DataFrame, Error>)
    requires
        forall|i: int| 0 <= i < cols@.len() ==> (#[trigger] cols@[i]).1.wf(),
    ensures
        match r {
            Ok(df) => {
                &&& df.wf()
                &&& forall|i: int, j: int|
                    0 <= i < cols@.len() && 0 <= j < cols@.len() ==> (
                    #[trigger] cols@[i]).1.spec_cells().len() == (
                    #[trigger] cols@[j]).1.spec_cells().len()
                &&& df.spec_fields().len() == cols@.len()
                &&& forall|i: int|
                    0 <= i < cols@.len() ==> (#[trigger] df.spec_fields()[i]).name
                        == cols@[i].0@ && df.spec_fields()[i].data_type
                        == cols@[i].1.spec_declared() && df.spec_fields()[i].metadata
                        =~= Seq::<(Seq<char>, Seq<char>)>::empty()
                &&& df.spec_cols().len() == cols@.len()
                &&& forall|i: int|
                    0 <= i < cols@.len() ==> #[trigger] df.spec_cols()[i] == cols@[
                        i
                    ].1.spec_cells()
                &&& df.spec_meta() =~= Seq::<(Seq<char>, Seq<char>)>::empty()
            },
            Err(e) => {
                &&& e == Error::RowsNotMatch
                &&& exists|i: int, j: int|
                    0 <= i < cols@.len() && 0 <= j < cols@.len() && (
                    #[trigger] cols@[i]).1.spec_cells().len() != (
                    #[trigger] cols@[j]).1.spec_cells().len()
            },
        },
{
    if cols.len() > 0 {
        let first_len = cols[0].1.len();
        let cn = cols.len();
        let mut ci: usize = 1;
        while ci < cn
            invariant
                cn == cols@.len(),
                cn > 0,
                1 <= ci <= cn,
                first_len == cols@[0].1.spec_cells().len(),
                forall|j: int|
                    0 <= j < ci ==> (#[trigger] cols@[j]).1.spec_cells().len() == first_len,
            decreases cn - ci,
        {
            if cols[ci].1.len() != first_len {
                proof {
                    assert((cols@[0]).1.spec_cells().len() != (cols@[
                        ci as int
                    ]).1.spec_cells().len());
                }
                return Err(Error::RowsNotMatch);
            }
            ci += 1;
        }
    }
    let mut df = DataFrame::new(Some(cols.len()));
    let n = cols.len();
    let ghost cseq = cols@;
    let mut it: usize = 0;
    let mut rest = cols;
    while it < n
        invariant
            n == cseq.len(),
            it <= n,
            rest@ =~= cseq.skip(it as int),
            forall|i: int| 0 <= i < cseq.len() ==> (#[trigger] cseq[i]).1.wf(),
            forall|i: int, j: int|
                0 <= i < cseq.len() && 0 <= j < cseq.len() ==> (
                #[trigger] cseq[i]).1.spec_cells().len() == (
                #[trigger] cseq[j]).1.spec_cells().len(),
            df.wf(),
            df.spec_meta() =~= Seq::<(Seq<char>, Seq<char>)>::empty(),
            df.spec_fields().len() == it,
            df.spec_cols().len() == it,
            forall|i: int|
                0 <= i < it ==> (#[trigger] df.spec_fields()[i]).name == cseq[i].0@
                    && df.spec_fields()[i].data_type == cseq[i].1.spec_declared()
                    && df.spec_fields()[i].metadata =~= Seq::<(Seq<char>, Seq<char>)>::empty(),
            forall|i: int| 0 <= i < it ==> #[trigger] df.spec_cols()[i] == cseq[i].1.spec_cells(),
            forall|i: int|
                0 <= i < it ==> (#[trigger] cseq[i]).1.spec_cells().len() == df.spec_rows(),
        decreases n - it,
    {
        let ghost dfb = df;
        let (name, col) = rest.remove(0);
        proof {
            assert(cseq.skip(it as int)[0] == cseq[it as int]);
            assert(rest@ =~= cseq.skip(it + 1));
            assert(col.wf());
        }
        let (series, declared) = col.into_series_type();
        let added = df.add_series(name.as_str(), series, Some(declared), None);
        match added {
            Ok(()) => {
                proof {
                    dfb.lemma_rectangular();
                    df.lemma_rectangular();
                    assert forall|i: int| 0 <= i < it + 1 implies (
                    #[trigger] cseq[i]).1.spec_cells().len() == df.spec_rows() by {
                        if it == 0 {
                            assert(df.spec_cols()[0] == cseq[0].1.spec_cells());
                        } else {
                            assert(df.spec_cols()[0] == dfb.spec_cols()[0]);
                        }
                    }
                }
            },
            Err(_) => {
                proof {
                    if it == 0 {
                        assert(false);
                    } else {
                        dfb.lemma_rectangular();
                        assert(dfb.spec_cols()[0] == cseq[0].1.spec_cells());
                        assert(cseq[0].1.spec_cells().len() == dfb.spec_rows());
                        assert(false);
                    }
                }
                return Err(Error::RowsNotMatch);
            },
        }
        it += 1;
    }
    proof {
        df.lemma_rectangular();
        assert forall|i: int, j: int|
            0 <= i < cseq.len() && 0 <= j < cseq.len() implies (
        #[trigger] cseq[i]).1.spec_cells().len() == (#[trigger] cseq[j]).1.spec_cells().len() by {
            assert(cseq[i].1.spec_cells().len() == df.spec_rows());
            assert(cseq[j].1.spec_cells().len() == df.spec_rows());
        }
    }
    Ok(df)
}


/// Accumulated size of aligned row cells against the first `k` columns.
pub open spec fn spec_row_size_upto(
    cols: Seq<(String, Col)>,
    cells: Seq<CellV>,
    k: int,
) -> int
    decreases k,
{
    if k <= 0 {
        0
    } else {
        spec_row_size_upto(cols, cells, k - 1) + spec_push_size(
            cols[k - 1].1.spec_native(),
            cells[k - 1],
        )
    }
}

/// Accumulated size of all pending values across the columns.
pub open spec fn spec_cols_size(cols: Seq<(String, Col)>) -> int
    decreases cols.len(),
{
    if cols.len() == 0 {
        0
    } else {
        spec_cols_size(cols.drop_last()) + cols.last().1.spec_size()
    }
}

proof fn lemma_push_size_nonneg(dt: DataTypeV, c: CellV)
    ensures
        spec_push_size(dt, c) >= 0,
{
}

proof fn lemma_col_size_nonneg(dt: DataTypeV, cells: Seq<CellV>)
    ensures
        spec_col_size(dt, cells) >= 0,
    decreases cells.len(),
{
    if cells.len() > 0 {
        lemma_col_size_nonneg(dt, cells.drop_last());
    }
}

proof fn lemma_cols_size_nonneg(cols: Seq<(String, Col)>)
    requires
        forall|i: int| 0 <= i < cols.len() ==> (#[trigger] cols[i]).1.wf(),
    ensures
        spec_cols_size(cols) >= 0,
    decreases cols.len(),
{
    if cols.len() > 0 {
        lemma_cols_size_nonneg(cols.drop_last());
        lemma_col_size_nonneg(cols.last().1.spec_native(), cols.last().1.spec_cells());
    }
}

/// A prefix sum of the columns' sizes is at most the whole sum.
proof fn lemma_cols_size_prefix(cols: Seq<(String, Col)>, k: int)
    requires
        0 <= k <= cols.len(),
        forall|i: int| 0 <= i < cols.len() ==> (#[trigger] cols[i]).1.wf(),
    ensures
        spec_cols_size(cols.take(k)) <= spec_cols_size(cols),
    decreases cols.len() - k,
{
    if k == cols.len() {
        assert(cols.take(k) =~= cols);
    } else {
        lemma_cols_size_prefix(cols, k + 1);
        assert(cols.take(k + 1).drop_last() =~= cols.take(k));
        assert(cols.take(k + 1).last() == cols[k]);
        lemma_col_size_nonneg(cols[k].1.spec_native(), cols[k].1.spec_cells());
    }
}

proof fn lemma_row_size_nonneg(cols: Seq<(String, Col)>, cells: Seq<CellV>, k: int)
    requires
        k <= cells.len(),
        k <= cols.len(),
    ensures
        spec_row_size_upto(cols, cells, k) >= 0,
    decreases k,
{
    if k > 0 {
        lemma_row_size_nonneg(cols, cells, k - 1);
        lemma_push_size_nonneg(cols[k - 1].1.spec_native(), cells[k - 1]);
    }
}

/// The ingest accumulator: typed columns buffering rows, flushed into a
/// store whenever the accumulated approximate byte size reaches the
/// configured threshold.
pub struct Ingest {
    cols: Vec<(String, Col)>,
    chunk_size: Option<u64>,
}

impl Ingest {
    /// The named columns.
    pub closed spec fn spec_cols(self) -> Seq<(String, Col)> {
        self.cols@
    }

    /// The configured byte-size threshold.
    pub closed spec fn spec_chunk(self) -> Option<u64> {
        self.chunk_size
    }

    /// Total accumulated size.
    pub open spec fn spec_size(self) -> int {
        spec_cols_size(self.spec_cols())
    }

    /// Rows pending since the last flush.
    pub open spec fn spec_pending_rows(self) -> int {
        if self.spec_cols().len() == 0 {
            0
        } else {
            self.spec_cols()[0].1.spec_cells().len() as int
        }
    }

    /// Every column is consistent and all columns buffer the same number
    /// of rows.
    pub open spec fn wf(self) -> bool {
        &&& forall|i: int| 0 <= i < self.spec_cols().len() ==> (#[trigger] self.spec_cols()[i]).1.wf()
        &&& forall|i: int|
            0 <= i < self.spec_cols().len() ==> (#[trigger] self.spec_cols()[i]).1.spec_cells().len()
                as int == self.spec_pending_rows()
    }

    /// Start an accumulator from the cursor's column names and driver type
    /// names; fails with `Unimplemented`, echoing the type name, exactly
    /// when some driver type is unsupported.
    pub fn new(columns: Vec<(String, String)>, chunk_size: Option<u64>) -> (r: Result<
        Ingest,
        Error,
    >)
        ensures
            match r {
                Ok(g) => {
                    &&& g.wf()
                    &&& g.spec_chunk() == chunk_size
                    &&& g.spec_size() == 0
                    &&& g.spec_pending_rows() == 0
                    &&& g.spec_cols().len() == columns@.len()
                    &&& forall|i: int|
                        0 <= i < columns@.len() ==> (#[trigger] g.spec_cols()[i]).0@ == columns@[
                            i
                        ].0@
                    &&& forall|i: int|
                        0 <= i < columns@.len() ==> (spec_col_kind((#[trigger] columns@[i]).1@)
                            matches Some(k) && g.spec_cols()[i].1.spec_native() == k.0
                            && g.spec_cols()[i].1.spec_declared() == k.1)
                    &&& forall|i: int|
                        0 <= i < columns@.len() ==> (#[trigger] g.spec_cols()[
                            i
                        ]).1.spec_cells().len() == 0
                },
                Err(e) => {
                    &&& e matches Error::Unimplemented(s) && exists|i: int|
                        0 <= i < columns@.len() && spec_col_kind((#[trigger] columns@[i]).1@)
                            is None && s@ == columns@[i].1@
                },
            },
    {
        let n = columns.len();
        let mut cols: Vec<(String, Col)> = Vec::new();
        let mut i: usize = 0;
        while i < n
            invariant
                n == columns@.len(),
                i <= n,
                cols@.len() == i,
                forall|j: int| 0 <= j < i ==> (#[trigger] cols@[j]).1.wf(),
                forall|j: int| 0 <= j < i ==> (#[trigger] cols@[j]).0@ == columns@[j].0@,
                forall|j: int|
                    0 <= j < i ==> (spec_col_kind((#[trigger] columns@[j]).1@) matches Some(k)
                        && cols@[j].1.spec_native() == k.0 && cols@[j].1.spec_declared() == k.1),
                forall|j: int| 0 <= j < i ==> (#[trigger] cols@[j]).1.spec_cells().len() == 0,
                forall|j: int| 0 <= j < i ==> (#[trigger] cols@[j]).1.spec_size() == 0,
            decreases n - i,
        {
            let name = columns[i].0.clone();
            let created = Col::create(i, columns[i].1.as_str());
            match created {
                Ok(col) => {
                    cols.push((name, col));
                },
                Err(e) => {
                    return Err(e);
                },
            }
            i += 1;
        }
        let g = Ingest { cols, chunk_size };
        proof {
            lemma_ingest_empty_size(g.spec_cols());
        }
        Ok(g)
    }

    /// Total accumulated size.
    pub fn size(&self) -> (r: u64)
        requires
            self.wf(),
            self.spec_size() <= u64::MAX,
        ensures
            r == self.spec_size(),
    {
        let n = self.cols.len();
        let mut acc: u64 = 0;
        let mut i: usize = 0;
        proof {
            assert(self.spec_cols().take(0) =~= Seq::<(String, Col)>::empty());
        }
        while i < n
            invariant
                self.wf(),
                self.spec_size() <= u64::MAX,
                n == self.spec_cols().len(),
                n == self.cols@.len(),
                i <= n,
                acc == spec_cols_size(self.spec_cols().take(i as int)),
            decreases n - i,
        {
            proof {
                assert(self.spec_cols().take(i + 1).drop_last() =~= self.spec_cols().take(
                    i as int,
                ));
                assert(self.spec_cols().take(i + 1).last() == self.spec_cols()[i as int]);
                lemma_cols_size_prefix(self.spec_cols(), i + 1);
                lemma_cols_size_nonneg(self.spec_cols().take(i as int));
                lemma_col_size_nonneg(
                    self.spec_cols()[i as int].1.spec_native(),
                    self.spec_cols()[i as int].1.spec_cells(),
                );
            }
            acc = acc + self.cols[i].1.size();
            i += 1;
        }
        proof {
            assert(self.spec_cols().take(n as int) =~= self.spec_cols());
        }
        acc
    }

    /// Feed one row of decoded values, one per column in column order.
    ///
    /// When the accumulated size reaches the configured threshold, the
    /// buffered rows are emitted as one store and accumulation restarts
    /// from empty; otherwise nothing is emitted. Fails with `TypeMismatch`,
    /// leaving the accumulator unchanged, exactly when some value does not
    /// match its column's native type.
    pub fn push_row(&mut self, row: Vec<Cell>) -> (r: Result<Option<DataFrame>, Error>)
        requires
            old(self).wf(),
            row@.len() == old(self).spec_cols().len(),
            old(self).spec_size() + spec_row_size_upto(
                old(self).spec_cols(),
                row@.map(|i: int, c: Cell| c@),
                row@.len() as int,
            ) <= u64::MAX,
            forall|i: int|
                0 <= i < row@.len() ==> ((#[trigger] row@[i])@ matches CellV::Str(s)
                    ==> vstd::utf8::encode_utf8(s).len() <= usize::MAX),
        ensures
            final(self).wf(),
            final(self).spec_chunk() == old(self).spec_chunk(),
            final(self).spec_cols().len() == old(self).spec_cols().len(),
            forall|i: int|
                0 <= i < final(self).spec_cols().len() ==> (#[trigger] final(self).spec_cols()[
                    i
                ]).0@ == old(self).spec_cols()[i].0@ && final(self).spec_cols()[
                    i
                ].1.spec_native() == old(self).spec_cols()[i].1.spec_native() && final(self).spec_cols()[i].1.spec_declared() == old(self).spec_cols()[i].1.spec_declared(),
            match r {
                Ok(out) => {
                    &&& forall|i: int|
                        0 <= i < row@.len() ==> crate::series::cell_ok(
                            old(self).spec_cols()[i].1.spec_native(),
                            (#[trigger] row@[i])@,
                        )
                    &&& match out {
                        None => {
                            &&& (old(self).spec_chunk() matches Some(t) ==> old(self).spec_size()
                                + spec_row_size_upto(
                                old(self).spec_cols(),
                                row@.map(|i: int, c: Cell| c@),
                                row@.len() as int,
                            ) < t)
                            &&& forall|i: int|
                                0 <= i < final(self).spec_cols().len() ==> (#[trigger] final(self).spec_cols()[i]).1.spec_cells() =~= old(self).spec_cols()[
                                    i
                                ].1.spec_cells().push(row@[i]@)
                            &&& final(self).spec_size() == old(self).spec_size()
                                + spec_row_size_upto(
                                old(self).spec_cols(),
                                row@.map(|i: int, c: Cell| c@),
                                row@.len() as int,
                            )
                        },
                        Some(df) => {
                            &&& old(self).spec_chunk() matches Some(t) && old(self).spec_size()
                                + spec_row_size_upto(
                                old(self).spec_cols(),
                                row@.map(|i: int, c: Cell| c@),
                                row@.len() as int,
                            ) >= t
                            &&& df.wf()
                            &&& df.spec_fields().len() == old(self).spec_cols().len()
                            &&& forall|i: int|
                                0 <= i < old(self).spec_cols().len() ==> (
                                #[trigger] df.spec_fields()[i]).name == old(self).spec_cols()[
                                    i
                                ].0@ && df.spec_fields()[i].data_type == old(self).spec_cols()[
                                    i
                                ].1.spec_declared()
                            &&& df.spec_cols().len() == old(self).spec_cols().len()
                            &&& forall|i: int|
                                0 <= i < old(self).spec_cols().len() ==> #[trigger] df.spec_cols()[
                                    i
                                ] =~= old(self).spec_cols()[i].1.spec_cells().push(row@[i]@)
                            &&& final(self).spec_size() == 0
                            &&& final(self).spec_pending_rows() == 0
                        },
                    }
                },
                Err(e) => {
                    &&& e == Error::TypeMismatch
                    &&& exists|i: int|
                        0 <= i < row@.len() && !crate::series::cell_ok(
                            old(self).spec_cols()[i].1.spec_native(),
                            (#[trigger] row@[i])@,
                        )
                    &&& *final(self) == *old(self)
                },
            },
    {
        let ghost rowv = row@.map(|i: int, c: Cell| c@);
        let n = self.cols.len();
        // Reject the whole row before buffering anything.
        let mut i: usize = 0;
        while i < n
            invariant
                n == self.cols@.len(),
                row@.len() == n,
                i <= n,
                *self == *old(self),
                self.wf(),
                forall|j: int|
                    0 <= j < i ==> crate::series::cell_ok(
                        self.spec_cols()[j].1.spec_native(),
                        (#[trigger] row@[j])@,
                    ),
            decreases n - i,
        {
            if !self.cols[i].1.accepts(&row[i]) {
                return Err(Error::TypeMismatch);
            }
            i += 1;
        }
        // Buffer the row.
        let ghost start = *self;
        let mut rest = row;
        let mut k: usize = 0;
        while k < n
            invariant
                n == self.cols@.len(),
                n == start.spec_cols().len(),
                rowv.len() == n,
                rowv == row@.map(|i: int, c: Cell| c@),
                k <= n,
                rest@.len() == n - k,
                forall|j: int| 0 <= j < n - k ==> (#[trigger] rest@[j])@ == rowv[k + j],
                forall|j: int|
                    0 <= j < n ==> crate::series::cell_ok(
                        start.spec_cols()[j].1.spec_native(),
                        rowv[j],
                    ),
                forall|j: int|
                    0 <= j < n ==> ((#[trigger] rowv[j]) matches CellV::Str(s)
                        ==> vstd::utf8::encode_utf8(s).len() <= usize::MAX),
                start.wf(),
                start.spec_size() + spec_row_size_upto(start.spec_cols(), rowv, n as int)
                    <= u64::MAX,
                self.spec_chunk() == start.spec_chunk(),
                forall|j: int|
                    0 <= j < n ==> (#[trigger] self.spec_cols()[j]).0@ == start.spec_cols()[j].0@
                        && self.spec_cols()[j].1.spec_native() == start.spec_cols()[
                        j
                    ].1.spec_native() && self.spec_cols()[j].1.spec_declared()
                        == start.spec_cols()[j].1.spec_declared() && self.spec_cols()[
                        j
                    ].1.wf(),
                forall|j: int|
                    0 <= j < k ==> (#[trigger] self.spec_cols()[j]).1.spec_cells()
                        == start.spec_cols()[j].1.spec_cells().push(rowv[j]),
                forall|j: int|
                    k <= j < n ==> (#[trigger] self.spec_cols()[j]).1.spec_cells()
                        == start.spec_cols()[j].1.spec_cells(),
                spec_cols_size(self.spec_cols()) == spec_cols_size(start.spec_cols())
                    + spec_row_size_upto(start.spec_cols(), rowv, k as int),
            decreases n - k,
        {
            let cell = rest.remove(0);
            proof {
                assert(cell@ == rowv[k as int]);
                assert forall|j: int| 0 <= j < n - (k + 1) implies (#[trigger] rest@[j])@ == rowv[
                    k + 1 + j
                ] by {
                }
                lemma_ingest_push_bound(start, self.spec_cols(), rowv, k as int, n as int);
            }
            let ghost colsb = self.spec_cols();
            let (name, mut col) = self.cols.remove(k);
            let pushed = col.push(cell);
            proof {
                if pushed is Err {
                    assert(false);
                }
            }
            self.cols.insert(k, (name, col));
            proof {
                assert(self.spec_cols() =~= colsb.update(k as int, self.spec_cols()[k as int]));
                lemma_cols_size_update(colsb, self.spec_cols(), k as int);
                assert(spec_row_size_upto(start.spec_cols(), rowv, k + 1) == spec_row_size_upto(
                    start.spec_cols(),
                    rowv,
                    k as int,
                ) + spec_push_size(start.spec_cols()[k as int].1.spec_native(), rowv[k as int]));
            }
            k += 1;
        }
        // Decide whether to flush.
        proof {
            lemma_cols_size_nonneg(self.spec_cols());
        }
        let total = self.size();
        let flush = match self.chunk_size {
            Some(t) => total >= t,
            None => false,
        };
        proof {
            assert forall|j: int|
                0 <= j < self.spec_cols().len() implies (#[trigger] self.spec_cols()[
                j
            ]).1.spec_cells().len() as int == self.spec_pending_rows() by {
                assert(self.spec_cols()[0].1.spec_cells() == start.spec_cols()[
                    0
                ].1.spec_cells().push(rowv[0]));
                assert(self.spec_cols()[j].1.spec_cells() == start.spec_cols()[
                    j
                ].1.spec_cells().push(rowv[j]));
                assert(start.spec_cols()[j].1.spec_cells().len() as int
                    == start.spec_pending_rows());
                assert(start.spec_cols()[0].1.spec_cells().len() as int
                    == start.spec_pending_rows());
            }
        }
        if !flush {
            return Ok(None);
        }
        proof {
            assert forall|j: int, l: int|
                0 <= j < self.spec_cols().len() && 0 <= l < self.spec_cols().len() implies (
            #[trigger] self.spec_cols()[j]).1.spec_cells().len() == (
            #[trigger] self.spec_cols()[l]).1.spec_cells().len() by {
                assert(self.spec_cols()[j].1.spec_cells().len() as int
                    == self.spec_pending_rows());
                assert(self.spec_cols()[l].1.spec_cells().len() as int
                    == self.spec_pending_rows());
            }
        }
        let df = self.flush_pending();
        Ok(Some(df))
    }

    /// Emit the buffered rows as one store and restart accumulation.
    fn flush_pending(&mut self) -> (df: DataFrame)
        requires
            forall|j: int| 0 <= j < old(self).spec_cols().len() ==> (#[trigger] old(self).spec_cols()[j]).1.wf(),
            forall|j: int, l: int|
                0 <= j < old(self).spec_cols().len() && 0 <= l < old(self).spec_cols().len() ==> (
                #[trigger] old(self).spec_cols()[j]).1.spec_cells().len() == (#[trigger] old(self).spec_cols()[l]).1.spec_cells().len(),
        ensures
            final(self).wf(),
            final(self).spec_chunk() == old(self).spec_chunk(),
            final(self).spec_cols().len() == old(self).spec_cols().len(),
            forall|i: int|
                0 <= i < final(self).spec_cols().len() ==> (#[trigger] final(self).spec_cols()[
                    i
                ]).0@ == old(self).spec_cols()[i].0@ && final(self).spec_cols()[
                    i
                ].1.spec_native() == old(self).spec_cols()[i].1.spec_native() && final(self).spec_cols()[i].1.spec_declared() == old(self).spec_cols()[i].1.spec_declared(),
            final(self).spec_size() == 0,
            final(self).spec_pending_rows() == 0,
            df.wf(),
            df.spec_fields().len() == old(self).spec_cols().len(),
            forall|i: int|
                0 <= i < old(self).spec_cols().len() ==> (#[trigger] df.spec_fields()[i]).name
                    == old(self).spec_cols()[i].0@ && df.spec_fields()[i].data_type == old(self).spec_cols()[i].1.spec_declared(),
            df.spec_cols().len() == old(self).spec_cols().len(),
            forall|i: int|
                0 <= i < old(self).spec_cols().len() ==> #[trigger] df.spec_cols()[i] == old(self).spec_cols()[i].1.spec_cells(),
    {
        let n = self.cols.len();
        let mut df = DataFrame::new(Some(n));
        let mut k: usize = 0;
        while k < n
            invariant
                n == self.cols@.len(),
                n == old(self).spec_cols().len(),
                k <= n,
                forall|j: int, l: int|
                    0 <= j < n && 0 <= l < n ==> (#[trigger] old(self).spec_cols()[
                        j
                    ]).1.spec_cells().len() == (#[trigger] old(self).spec_cols()[
                        l
                    ]).1.spec_cells().len(),
                self.spec_chunk() == old(self).spec_chunk(),
                forall|j: int|
                    0 <= j < n ==> (#[trigger] self.spec_cols()[j]).0@ == old(self).spec_cols()[
                        j
                    ].0@ && self.spec_cols()[j].1.spec_native() == old(self).spec_cols()[
                        j
                    ].1.spec_native() && self.spec_cols()[j].1.spec_declared() == old(self).spec_cols()[j].1.spec_declared() && self.spec_cols()[j].1.wf(),
                forall|j: int|
                    0 <= j < k ==> (#[trigger] self.spec_cols()[j]).1.spec_cells().len() == 0
                        && self.spec_cols()[j].1.spec_size() == 0,
                forall|j: int|
                    k <= j < n ==> (#[trigger] self.spec_cols()[j]).1.spec_cells() == old(self).spec_cols()[j].1.spec_cells(),
                df.wf(),
                df.spec_meta() =~= Seq::<(Seq<char>, Seq<char>)>::empty(),
                df.spec_fields().len() == k,
                df.spec_cols().len() == k,
                forall|j: int|
                    0 <= j < k ==> (#[trigger] df.spec_fields()[j]).name == old(self).spec_cols()[j].0@ && df.spec_fields()[j].data_type == old(self).spec_cols()[j].1.spec_declared(),
                forall|j: int|
                    0 <= j < k ==> #[trigger] df.spec_cols()[j] == old(self).spec_cols()[
                        j
                    ].1.spec_cells(),
                forall|j: int|
                    0 <= j < k ==> (#[trigger] df.spec_cols()[j]).len() == df.spec_rows(),
            decreases n - k,
        {
            let ghost dfb = df;
            let ghost colsb = self.spec_cols();
            let (name, mut col) = self.cols.remove(k);
            let (series, declared) = col.flush();
            self.cols.insert(k, (name, col));
            proof {
                assert(self.spec_cols() =~= colsb.update(k as int, self.spec_cols()[k as int]));
            }
            let name_ref = &self.cols[k].0;
            let added = df.add_series(name_ref.as_str(), series, Some(declared), None);
            proof {
                dfb.lemma_rectangular();
                df.lemma_rectangular();
                if added is Err {
                    assert(dfb.spec_cols()[0] == old(self).spec_cols()[0].1.spec_cells());
                    assert(false);
                }
                if k == 0 {
                    assert(df.spec_cols()[0] == old(self).spec_cols()[0].1.spec_cells());
                } else {
                    assert(df.spec_cols()[0] == dfb.spec_cols()[0]);
                }
            }
            k += 1;
        }
        proof {
            lemma_ingest_empty_size(self.spec_cols());
        }
        df
    }

    /// Emit whatever rows are still buffered, or nothing when none are.
    pub fn finish(self) -> (r: Option<DataFrame>)
        requires
            self.wf(),
        ensures
            match r {
                None => self.spec_pending_rows() == 0,
                Some(df) => {
                    &&& self.spec_pending_rows() > 0
                    &&& df.wf()
                    &&& df.spec_fields().len() == self.spec_cols().len()
                    &&& forall|i: int|
                        0 <= i < self.spec_cols().len() ==> (#[trigger] df.spec_fields()[i]).name
                            == self.spec_cols()[i].0@ && df.spec_fields()[i].data_type
                            == self.spec_cols()[i].1.spec_declared()
                    &&& df.spec_cols().len() == self.spec_cols().len()
                    &&& forall|i: int|
                        0 <= i < self.spec_cols().len() ==> #[trigger] df.spec_cols()[i]
                            == self.spec_cols()[i].1.spec_cells()
                },
            },
    {
        if self.cols.len() == 0 {
            return None;
        }
        if self.cols[0].1.len() == 0 {
            return None;
        }
        let Ingest { cols, chunk_size } = self;
        let ghost cseq = cols@;
        let built = create_df(cols);
        match built {
            Ok(df) => Some(df),
            Err(_) => {
                proof {
                    assert(false);
                }
                None
            },
        }
    }
}

/// Columns with no pending values have accumulated size zero.
proof fn lemma_ingest_empty_size(cols: Seq<(String, Col)>)
    requires
        forall|i: int| 0 <= i < cols.len() ==> (#[trigger] cols[i]).1.wf(),
        forall|i: int| 0 <= i < cols.len() ==> (#[trigger] cols[i]).1.spec_cells().len() == 0,
    ensures
        spec_cols_size(cols) == 0,
    decreases cols.len(),
{
    if cols.len() > 0 {
        lemma_ingest_empty_size(cols.drop_last());
        assert(cols.last().1.spec_size() == spec_col_size(
            cols.last().1.spec_native(),
            cols.last().1.spec_cells(),
        ));
    }
}

/// Replacing one column changes the total size by that column's change.
proof fn lemma_cols_size_update(a: Seq<(String, Col)>, b: Seq<(String, Col)>, k: int)
    requires
        0 <= k < a.len(),
        b.len() == a.len(),
        forall|j: int| 0 <= j < a.len() && j != k ==> #[trigger] b[j] == a[j],
    ensures
        spec_cols_size(b) == spec_cols_size(a) + (b[k].1.spec_size() - a[k].1.spec_size()),
    decreases a.len(),
{
    if a.len() > 0 {
        if k == a.len() - 1 {
            assert(b.drop_last() =~= a.drop_last());
        } else {
            lemma_cols_size_update(a.drop_last(), b.drop_last(), k);
            assert(b.last() == a.last());
        }
    }
}

/// The buffered column about to receive the row's cell can take it without
/// overflowing the tracked size.
proof fn lemma_ingest_push_bound(
    start: Ingest,
    cur: Seq<(String, Col)>,
    rowv: Seq<CellV>,
    k: int,
    n: int,
)
    requires
        start.wf(),
        n == start.spec_cols().len(),
        n == cur.len(),
        rowv.len() == n,
        0 <= k < n,
        forall|j: int|
            0 <= j < n ==> (#[trigger] cur[j]).1.spec_native() == start.spec_cols()[
                j
            ].1.spec_native() && cur[j].1.wf(),
        forall|j: int|
            0 <= j < k ==> (#[trigger] cur[j]).1.spec_cells() == start.spec_cols()[
                j
            ].1.spec_cells().push(rowv[j]),
        forall|j: int|
            k <= j < n ==> (#[trigger] cur[j]).1.spec_cells() == start.spec_cols()[
                j
            ].1.spec_cells(),
        spec_cols_size(cur) == spec_cols_size(start.spec_cols()) + spec_row_size_upto(
            start.spec_cols(),
            rowv,
            k,
        ),
        spec_cols_size(start.spec_cols()) + spec_row_size_upto(start.spec_cols(), rowv, n)
            <= u64::MAX,
    ensures
        cur[k].1.spec_size() + spec_push_size(cur[k].1.spec_native(), rowv[k]) <= u64::MAX,
{
    lemma_cols_size_nonneg(cur);
    lemma_cols_size_col_bound(cur, k);
    lemma_row_size_mono(start.spec_cols(), rowv, k + 1, n);
    assert(spec_row_size_upto(start.spec_cols(), rowv, k + 1) == spec_row_size_upto(
        start.spec_cols(),
        rowv,
        k,
    ) + spec_push_size(start.spec_cols()[k].1.spec_native(), rowv[k]));
}

/// One column's size is at most the total.
proof fn lemma_cols_size_col_bound(cols: Seq<(String, Col)>, k: int)
    requires
        0 <= k < cols.len(),
        forall|i: int| 0 <= i < cols.len() ==> (#[trigger] cols[i]).1.wf(),
    ensures
        cols[k].1.spec_size() <= spec_cols_size(cols),
    decreases cols.len(),
{
    if k == cols.len() - 1 {
        lemma_cols_size_nonneg(cols.drop_last());
    } else {
        lemma_cols_size_col_bound(cols.drop_last(), k);
        lemma_col_size_nonneg(cols.last().1.spec_native(), cols.last().1.spec_cells());
    }
}

/// Row-size prefixes grow with the prefix.
proof fn lemma_row_size_mono(cols: Seq<(String, Col)>, cells: Seq<CellV>, a: int, b: int)
    requires
        0 <= a <= b,
        b <= cells.len(),
        b <= cols.len(),
    ensures
        spec_row_size_upto(cols, cells, a) <= spec_row_size_upto(cols, cells, b),
    decreases b - a,
{
    if a < b {
        lemma_row_size_mono(cols, cells, a + 1, b);
        lemma_push_size_nonneg(cols[a].1.spec_native(), cells[a]);
    }
}


/// A single-row value ready to bind to a positional statement parameter,
/// typed by the column's declared logical type. Timestamps are split into
/// whole seconds and a sub-second nanosecond remainder; a JSON-marked text
/// value keeps its text, to be parsed as structured JSON at the driver.
#[derive(Debug)]
pub enum BindValue {
    Bool(Option<bool>),
    I16(Option<i16>),
    I32(Option<i32>),
    I64(Option<i64>),
    F32Bits(Option<u32>),
    F64Bits(Option<u64>),
    Str(Option<String>),
    Json(Option<String>),
    Timestamp(Option<(i64, u32)>),
}

/// Declared types the egress binder supports.
pub open spec fn spec_bind_supported(dt: DataTypeV) -> bool {
    match dt {
        DataTypeV::Boolean => true,
        DataTypeV::Int16 => true,
        DataTypeV::Int32 => true,
        DataTypeV::Int64 => true,
        DataTypeV::Float32 => true,
        DataTypeV::Float64 => true,
        DataTypeV::Utf8 => true,
        DataTypeV::LargeUtf8 => true,
        DataTypeV::Timestamp(_, _) => true,
        _ => false,
    }
}

/// A timestamp under a unit, split into whole seconds (Euclidean, so the
/// remainder is never negative) and nanoseconds past the second.
pub open spec fn spec_split_ts(unit: TimeUnit, ts: i64) -> (int, int) {
    match unit {
        TimeUnit::Second => (ts as int, 0),
        TimeUnit::Millisecond => (ts as int / 1000, (ts as int % 1000) * 1_000_000),
        TimeUnit::Microsecond => (ts as int / 1_000_000, (ts as int % 1_000_000) * 1_000),
        TimeUnit::Nanosecond => (ts as int / 1_000_000_000, ts as int % 1_000_000_000),
    }
}

/// What the bound value must be for a cell under a declared type.
pub open spec fn spec_bind_matches(dt: DataTypeV, is_json: bool, c: CellV, bv: BindValue) -> bool {
    match dt {
        DataTypeV::Boolean => bv matches BindValue::Bool(o) && (match c {
            CellV::Null => o is None,
            CellV::Bool(b) => o == Some(b),
            _ => false,
        }),
        DataTypeV::Int16 => bv matches BindValue::I16(o) && (match c {
            CellV::Null => o is None,
            CellV::I16(x) => o == Some(x),
            _ => false,
        }),
        DataTypeV::Int32 => bv matches BindValue::I32(o) && (match c {
            CellV::Null => o is None,
            CellV::I32(x) => o == Some(x),
            _ => false,
        }),
        DataTypeV::Int64 => bv matches BindValue::I64(o) && (match c {
            CellV::Null => o is None,
            CellV::I64(x) => o == Some(x),
            _ => false,
        }),
        DataTypeV::Float32 => bv matches BindValue::F32Bits(o) && (match c {
            CellV::Null => o is None,
            CellV::F32Bits(x) => o == Some(x),
            _ => false,
        }),
        DataTypeV::Float64 => bv matches BindValue::F64Bits(o) && (match c {
            CellV::Null => o is None,
            CellV::F64Bits(x) => o == Some(x),
            _ => false,
        }),
        DataTypeV::Utf8 | DataTypeV::LargeUtf8 => if is_json {
            bv matches BindValue::Json(o) && (match c {
                CellV::Null => o is None,
                CellV::Str(s) => o matches Some(t) && t@ == s,
                _ => false,
            })
        } else {
            bv matches BindValue::Str(o) && (match c {
                CellV::Null => o is None,
                CellV::Str(s) => o matches Some(t) && t@ == s,
                _ => false,
            })
        },
        DataTypeV::Timestamp(unit, _) => bv matches BindValue::Timestamp(o) && (match c {
            CellV::Null => o is None,
            CellV::I64(ts) => o matches Some(p) && p.0 == spec_split_ts(unit, ts).0 && p.1
                == spec_split_ts(unit, ts).1,
            _ => false,
        }),
        _ => false,
    }
}

/// Euclidean division of a signed timestamp by a positive unit base: the
/// remainder is never negative.
fn div_rem_euclid(ts: i64, base: u64) -> (r: (i64, u64))
    requires
        1000 <= base <= 1_000_000_000,
    ensures
        r.0 == ts as int / base as int,
        r.1 == ts as int % base as int,
{
    broadcast use vstd::arithmetic::div_mod::lemma_fundamental_div_mod;

    if ts >= 0 {
        let u = ts as u64;
        let q = u / base;
        let rr = u % base;
        (q as i64, rr)
    } else {
        let mag: u64 = ((-(ts + 1)) as u64) + 1;
        proof {
            assert(mag as int == -(ts as int));
        }
        let q0 = mag / base;
        let r0 = mag % base;
        proof {
            assert(mag as int == base as int * (q0 as int) + r0 as int);
            assert((q0 as int) * 1000 <= mag as int) by (nonlinear_arith)
                requires
                    mag as int == base as int * (q0 as int) + r0 as int,
                    base as int >= 1000,
                    r0 as int >= 0,
                    q0 as int >= 0,
            ;
            assert(q0 < 0x4000000000000000);
        }
        if r0 == 0 {
            let q = -(q0 as i64);
            proof {
                assert(ts as int == (-(q0 as int)) * (base as int) + 0) by (nonlinear_arith)
                    requires
                        mag as int == base as int * (q0 as int) + r0 as int,
                        r0 == 0,
                        mag as int == -(ts as int),
                ;
                vstd::arithmetic::div_mod::lemma_fundamental_div_mod_converse(
                    ts as int,
                    base as int,
                    -(q0 as int),
                    0,
                );
            }
            (q, 0)
        } else {
            let q = -((q0 as i64) + 1);
            let rr = base - r0;
            proof {
                assert(ts as int == (-(q0 as int) - 1) * (base as int) + (base - r0)) by (
                nonlinear_arith)
                    requires
                        mag as int == base as int * (q0 as int) + r0 as int,
                        0 < r0 < base,
                        mag as int == -(ts as int),
                ;
                vstd::arithmetic::div_mod::lemma_fundamental_div_mod_converse(
                    ts as int,
                    base as int,
                    -(q0 as int) - 1,
                    (base - r0) as int,
                );
            }
            (q, rr)
        }
    }
}

/// The value to bind for one row of one column, under the column's
/// declared type.
///
/// Fails with `Unimplemented` exactly when the declared type is outside
/// the supported set, and with `TypeMismatch` exactly when the stored cell
/// does not match the declared type's native storage.
pub fn bind_value_at(series: &Series, declared: &DataType, is_json: bool, row: usize) -> (r:
    Result<BindValue, Error>)
    requires
        row < series@.len(),
    ensures
        match r {
            Ok(bv) => spec_bind_supported(declared@) && crate::series::cell_ok(
                declared@,
                series@[row as int],
            ) && spec_bind_matches(declared@, is_json, series@[row as int], bv),
            Err(e) => {
                &&& (e matches Error::Unimplemented(_) || e == Error::TypeMismatch)
                &&& (e matches Error::Unimplemented(_) <==> !spec_bind_supported(declared@))
                &&& (e == Error::TypeMismatch ==> spec_bind_supported(declared@)
                    && !crate::series::cell_ok(declared@, series@[row as int]))
            },
        },
{
    let cell = series.get(row).duplicate();
    match declared {
        DataType::Boolean => match cell {
            Cell::Null => Ok(BindValue::Bool(None)),
            Cell::Bool(b) => Ok(BindValue::Bool(Some(b))),
            _ => Err(Error::TypeMismatch),
        },
        DataType::Int16 => match cell {
            Cell::Null => Ok(BindValue::I16(None)),
            Cell::I16(x) => Ok(BindValue::I16(Some(x))),
            _ => Err(Error::TypeMismatch),
        },
        DataType::Int32 => match cell {
            Cell::Null => Ok(BindValue::I32(None)),
            Cell::I32(x) => Ok(BindValue::I32(Some(x))),
            _ => Err(Error::TypeMismatch),
        },
        DataType::Int64 => match cell {
            Cell::Null => Ok(BindValue::I64(None)),
            Cell::I64(x) => Ok(BindValue::I64(Some(x))),
            _ => Err(Error::TypeMismatch),
        },
        DataType::Float32 => match cell {
            Cell::Null => Ok(BindValue::F32Bits(None)),
            Cell::F32Bits(x) => Ok(BindValue::F32Bits(Some(x))),
            _ => Err(Error::TypeMismatch),
        },
        DataType::Float64 => match cell {
            Cell::Null => Ok(BindValue::F64Bits(None)),
            Cell::F64Bits(x) => Ok(BindValue::F64Bits(Some(x))),
            _ => Err(Error::TypeMismatch),
        },
        DataType::Utf8 | DataType::LargeUtf8 => match cell {
            Cell::Null => if is_json {
                Ok(BindValue::Json(None))
            } else {
                Ok(BindValue::Str(None))
            },
            Cell::Str(s) => if is_json {
                Ok(BindValue::Json(Some(s)))
            } else {
                Ok(BindValue::Str(Some(s)))
            },
            _ => Err(Error::TypeMismatch),
        },
        DataType::Timestamp(unit, _) => match cell {
            Cell::Null => Ok(BindValue::Timestamp(None)),
            Cell::I64(ts) => match unit {
                TimeUnit::Second => Ok(BindValue::Timestamp(Some((ts, 0)))),
                TimeUnit::Millisecond => {
                    let (secs, rem) = div_rem_euclid(ts, 1000);
                    Ok(BindValue::Timestamp(Some((secs, (rem as u32) * 1_000_000))))
                },
                TimeUnit::Microsecond => {
                    let (secs, rem) = div_rem_euclid(ts, 1_000_000);
                    Ok(BindValue::Timestamp(Some((secs, (rem as u32) * 1_000))))
                },
                TimeUnit::Nanosecond => {
                    let (secs, rem) = div_rem_euclid(ts, 1_000_000_000);
                    Ok(BindValue::Timestamp(Some((secs, rem as u32))))
                },
            },
            _ => Err(Error::TypeMismatch),
        },
        _ => Err(Error::Unimplemented(String::from_str("type is not supported for binding"))),
    }
}

} // verus!
