//! Schema-union concatenation: merge stores whose schemas may differ into
//! one store, null-padding absent columns.

use vstd::prelude::*;
use crate::Error;
use crate::df::{DataFrame, Field, FieldV};
use crate::meta::{pairs_get, Metadata};
use crate::series::{CellV, Series, spec_storage_code};

verus! {

/// The stores behind a vector of references.
pub open spec fn derefs(v: Seq<&DataFrame>) -> Seq<DataFrame> {
    v.map(|i: int, d: &DataFrame| *d)
}

pub open spec fn fields_contain_name(fs: Seq<FieldV>, name: Seq<char>) -> bool {
    exists|i: int| 0 <= i < fs.len() && fs[i].name == name
}

/// Fold `fs` into `acc`, keeping the first-seen field for every name.
pub open spec fn spec_add_fields(acc: Seq<FieldV>, fs: Seq<FieldV>) -> Seq<FieldV>
    decreases fs.len(),
{
    if fs.len() == 0 {
        acc
    } else if fields_contain_name(acc, fs[0].name) {
        spec_add_fields(acc, fs.drop_first())
    } else {
        spec_add_fields(acc.push(fs[0]), fs.drop_first())
    }
}

pub open spec fn spec_union_fields_acc(acc: Seq<FieldV>, dfs: Seq<DataFrame>) -> Seq<FieldV>
    decreases dfs.len(),
{
    if dfs.len() == 0 {
        acc
    } else if dfs[0].spec_col_count() == 0 {
        spec_union_fields_acc(acc, dfs.drop_first())
    } else {
        spec_union_fields_acc(spec_add_fields(acc, dfs[0].spec_fields()), dfs.drop_first())
    }
}

/// The union of the input stores' fields, in first-seen order; stores with
/// no columns contribute nothing.
pub open spec fn spec_union_fields(dfs: Seq<DataFrame>) -> Seq<FieldV> {
    spec_union_fields_acc(Seq::<FieldV>::empty(), dfs)
}

/// The merged metadata value under `key`: the last store carrying the key wins.
pub open spec fn spec_union_meta_get(dfs: Seq<DataFrame>, key: Seq<char>) -> Option<Seq<char>>
    decreases dfs.len(),
{
    if dfs.len() == 0 {
        None
    } else if pairs_get(dfs.last().spec_meta(), key) is Some {
        pairs_get(dfs.last().spec_meta(), key)
    } else {
        spec_union_meta_get(dfs.drop_last(), key)
    }
}

/// First field carrying `name`.
pub open spec fn spec_find(fs: Seq<FieldV>, name: Seq<char>) -> Option<int>
    decreases fs.len(),
{
    if fs.len() == 0 {
        None
    } else if fs[0].name == name {
        Some(0)
    } else {
        match spec_find(fs.drop_first(), name) {
            Some(i) => Some(i + 1),
            None => None,
        }
    }
}

/// One store's contribution to the union column named `name`: its own column
/// when present, an all-null run of its row count when absent, nothing when
/// the store has no columns.
pub open spec fn spec_contrib(df: DataFrame, name: Seq<char>) -> Seq<CellV> {
    if df.spec_col_count() == 0 {
        Seq::<CellV>::empty()
    } else {
        match spec_find(df.spec_fields(), name) {
            Some(i) => df.spec_cols()[i],
            None => Seq::new(df.spec_rows(), |q: int| CellV::Null),
        }
    }
}

/// The union column named `name`: the stores' contributions in input order.
pub open spec fn spec_union_col(dfs: Seq<DataFrame>, name: Seq<char>) -> Seq<CellV>
    decreases dfs.len(),
{
    if dfs.len() == 0 {
        Seq::<CellV>::empty()
    } else {
        spec_union_col(dfs.drop_last(), name) + spec_contrib(dfs.last(), name)
    }
}

/// Total rows contributed by the stores.
pub open spec fn spec_total_rows(dfs: Seq<DataFrame>) -> int
    decreases dfs.len(),
{
    if dfs.len() == 0 {
        0
    } else {
        spec_total_rows(dfs.drop_last()) + if dfs.last().spec_col_count() == 0 {
            0
        } else {
            dfs.last().spec_rows() as int
        }
    }
}

/// Whether `df`'s column for `f.name` (when present) stores the same kind of
/// cell as `f`'s declared type.
pub open spec fn spec_col_compat(df: DataFrame, f: FieldV) -> bool {
    df.spec_col_count() == 0 || match spec_find(df.spec_fields(), f.name) {
        Some(i) => spec_storage_code(df.spec_dtypes()[i]) == spec_storage_code(f.data_type),
        None => true,
    }
}

pub open spec fn spec_all_compat(dfs: Seq<DataFrame>, fs: Seq<FieldV>) -> bool {
    forall|i: int, j: int|
        0 <= i < dfs.len() && 0 <= j < fs.len() ==> spec_col_compat(
            #[trigger] dfs[i],
            #[trigger] fs[j],
        )
}

/// `spec_find` returns exactly the first field carrying the name.
pub proof fn lemma_find_some(fs: Seq<FieldV>, name: Seq<char>, i: int)
    requires
        0 <= i < fs.len(),
        fs[i].name == name,
        forall|j: int| 0 <= j < i ==> fs[j].name != name,
    ensures
        spec_find(fs, name) == Some(i),
    decreases fs.len(),
{
    if i > 0 {
        lemma_find_some(fs.drop_first(), name, i - 1);
    }
}

pub proof fn lemma_find_none(fs: Seq<FieldV>, name: Seq<char>)
    requires
        forall|j: int| 0 <= j < fs.len() ==> fs[j].name != name,
    ensures
        spec_find(fs, name) is None,
    decreases fs.len(),
{
    if fs.len() > 0 {
        lemma_find_none(fs.drop_first(), name);
    }
}

proof fn lemma_find_props(fs: Seq<FieldV>, name: Seq<char>)
    ensures
        spec_find(fs, name) matches Some(i) ==> 0 <= i < fs.len() && fs[i].name == name,
    decreases fs.len(),
{
    if fs.len() > 0 && fs[0].name != name {
        lemma_find_props(fs.drop_first(), name);
    }
}

/// Every union column is as long as the total row count.
proof fn lemma_union_col_len(dfs: Seq<DataFrame>, name: Seq<char>)
    requires
        forall|i: int| 0 <= i < dfs.len() ==> (#[trigger] dfs[i]).wf(),
    ensures
        spec_union_col(dfs, name).len() == spec_total_rows(dfs),
    decreases dfs.len(),
{
    if dfs.len() > 0 {
        lemma_union_col_len(dfs.drop_last(), name);
        let last = dfs.last();
        assert(last.wf());
        if last.spec_col_count() > 0 {
            last.lemma_rectangular();
            lemma_find_props(last.spec_fields(), name);
        }
    }
}

/// Whether some field in `fields` carries `name`.
fn vec_fields_contain(fields: &Vec<Field>, name: &String) -> (r: bool)
    ensures
        r == fields_contain_name(fields@.map(|i: int, f: Field| f@), name@),
{
    let n = fields.len();
    let mut i: usize = 0;
    while i < n
        invariant
            n == fields@.len(),
            i <= n,
            forall|j: int| 0 <= j < i ==> (#[trigger] fields@[j])@.name != name@,
        decreases n - i,
    {
        if fields[i].name.eq(name) {
            proof {
                let fs = fields@.map(|q: int, f: Field| f@);
                assert(fs[i as int].name == name@);
            }
            return true;
        }
        i += 1;
    }
    false
}

/// Concatenate stores whose schemas may differ.
///
/// The result's fields are the union of the inputs' fields in first-seen
/// order; each union column is the inputs' contributions in input order, a
/// store's own column where it has one and an all-null run of its row count
/// where it does not; the metadata is the union of the inputs' metadata with
/// later stores overwriting shared keys. Stores with no columns contribute
/// no rows. Fails with `TypeMismatch` exactly when some store's column for a
/// union field stores a different kind of cell than the field's type.
pub fn concat(data_frames: &Vec<&DataFrame>) -> (r: Result<DataFrame, Error>)
    requires
        forall|i: int| 0 <= i < derefs(data_frames@).len() ==> (#[trigger] derefs(
            data_frames@,
        )[i]).wf(),
    ensures
        match r {
            Ok(df) => {
                &&& df.wf()
                &&& df.spec_fields() == spec_union_fields(derefs(data_frames@))
                &&& df.spec_cols().len() == spec_union_fields(derefs(data_frames@)).len()
                &&& forall|j: int|
                    0 <= j < df.spec_cols().len() ==> #[trigger] df.spec_cols()[j]
                        == spec_union_col(
                        derefs(data_frames@),
                        spec_union_fields(derefs(data_frames@))[j].name,
                    )
                &&& forall|k: Seq<char>| #[trigger] df.spec_meta_get(k) == spec_union_meta_get(
                    derefs(data_frames@),
                    k,
                )
                &&& spec_all_compat(derefs(data_frames@), spec_union_fields(derefs(data_frames@)))
            },
            Err(e) => {
                &&& e == Error::TypeMismatch
                &&& !spec_all_compat(
                    derefs(data_frames@),
                    spec_union_fields(derefs(data_frames@)),
                )
            },
        },
{
    let ghost dfs = derefs(data_frames@);
    let n = data_frames.len();

    // Merge the store-level metadata, later stores overwriting earlier keys.
    let mut meta = Metadata::new();
    let mut j: usize = 0;
    while j < n
        invariant
            n == dfs.len(),
            n == data_frames@.len(),
            dfs == derefs(data_frames@),
            forall|i: int| 0 <= i < dfs.len() ==> (#[trigger] dfs[i]).wf(),
            j <= n,
            meta.wf(),
            forall|k: Seq<char>| #[trigger] meta.spec_get(k) == spec_union_meta_get(
                dfs.take(j as int),
                k,
            ),
        decreases n - j,
    {
        let df: &DataFrame = data_frames[j];
        meta.extend(df.metadata());
        proof {
            assert(dfs.take(j + 1).drop_last() =~= dfs.take(j as int));
            assert(dfs.take(j + 1).last() == dfs[j as int]);
            assert(dfs[j as int] == *df);
        }
        j += 1;
    }
    proof {
        assert(dfs.take(n as int) =~= dfs);
    }

    // Collect the union of all fields, in first-seen order.
    let mut fields: Vec<Field> = Vec::new();
    let mut j: usize = 0;
    proof {
        assert(fields@.map(|q: int, f: Field| f@) =~= Seq::<FieldV>::empty());
    }
    while j < n
        invariant
            n == dfs.len(),
            n == data_frames@.len(),
            dfs == derefs(data_frames@),
            forall|i: int| 0 <= i < dfs.len() ==> (#[trigger] dfs[i]).wf(),
            j <= n,
            spec_union_fields_acc(fields@.map(|q: int, f: Field| f@), dfs.skip(j as int))
                == spec_union_fields(dfs),
            forall|i: int| 0 <= i < fields@.len() ==> (#[trigger] fields@[i]).wf(),
        decreases n - j,
    {
        let df: &DataFrame = data_frames[j];
        proof {
            assert(dfs.skip(j as int).drop_first() =~= dfs.skip(j + 1));
            assert(dfs.skip(j as int)[0] == dfs[j as int]);
            assert(dfs[j as int] == *df);
        }
        if !df.is_empty() {
            let src = df.fields();
            let m = src.len();
            proof {
                assert(df.spec_fields().skip(0) =~= df.spec_fields());
            }
            let mut t: usize = 0;
            while t < m
                invariant
                    n == dfs.len(),
                    n == data_frames@.len(),
                    dfs == derefs(data_frames@),
                    forall|i: int| 0 <= i < dfs.len() ==> (#[trigger] dfs[i]).wf(),
                    j < n,
                    dfs[j as int] == *df,
                    m == src@.len(),
                    src@.map(|q: int, f: Field| f@) == df.spec_fields(),
                    forall|i: int| 0 <= i < src@.len() ==> (#[trigger] src@[i]).wf(),
                    t <= m,
                    df.wf(),
                    spec_union_fields_acc(
                        spec_add_fields(
                            fields@.map(|q: int, f: Field| f@),
                            df.spec_fields().skip(t as int),
                        ),
                        dfs.skip(j + 1),
                    ) == spec_union_fields(dfs),
                    forall|i: int| 0 <= i < fields@.len() ==> (#[trigger] fields@[i]).wf(),
                decreases m - t,
            {
                proof {
                    assert(df.spec_fields().skip(t as int).drop_first() =~= df.spec_fields().skip(
                        t + 1,
                    ));
                    assert(df.spec_fields().skip(t as int)[0] == df.spec_fields()[t as int]);
                    assert(df.spec_fields()[t as int] == src@.map(|q: int, f: Field| f@)[t as int]);
                }
                if !vec_fields_contain(&fields, &src[t].name) {
                    let ghost before = fields@.map(|q: int, f: Field| f@);
                    let dup = src[t].duplicate();
                    proof {
                        assert(src@[t as int].wf());
                    }
                    fields.push(dup);
                    proof {
                        assert(fields@.map(|q: int, f: Field| f@) =~= before.push(
                            df.spec_fields()[t as int],
                        ));
                    }
                }
                t += 1;
            }
            proof {
                assert(df.spec_fields().skip(m as int) =~= Seq::<FieldV>::empty());
            }
        }
        j += 1;
    }
    proof {
        assert(dfs.skip(n as int) =~= Seq::<DataFrame>::empty());
        assert(fields@.map(|q: int, f: Field| f@) == spec_union_fields(dfs));
    }

    // Assemble every union column from the stores' contributions.
    let ghost ufields = spec_union_fields(dfs);
    let fcount = fields.len();
    let mut data: Vec<Series> = Vec::new();
    let mut fidx: usize = 0;
    while fidx < fcount
        invariant
            n == dfs.len(),
            n == data_frames@.len(),
            dfs == derefs(data_frames@),
            forall|i: int| 0 <= i < dfs.len() ==> (#[trigger] dfs[i]).wf(),
            fcount == fields@.len(),
            fields@.map(|q: int, f: Field| f@) == ufields,
            ufields == spec_union_fields(dfs),
            forall|i: int| 0 <= i < fields@.len() ==> (#[trigger] fields@[i]).wf(),
            fidx <= fcount,
            data@.len() == fidx,
            forall|q: int| 0 <= q < fidx ==> (#[trigger] data@[q])@ == spec_union_col(
                dfs,
                ufields[q].name,
            ),
            forall|q: int| 0 <= q < fidx ==> (#[trigger] data@[q]).wf(),
            forall|i: int, q: int|
                0 <= i < dfs.len() && 0 <= q < fidx ==> spec_col_compat(
                    #[trigger] dfs[i],
                    #[trigger] ufields[q],
                ),
        decreases fcount - fidx,
    {
        let ghost fname = ufields[fidx as int].name;
        let mut s = Series::new_empty(fields[fidx].data_type.duplicate());
        proof {
            assert(fields@[fidx as int]@ == ufields[fidx as int]);
            assert(s@ =~= spec_union_col(dfs.take(0), fname)) by {
                assert(dfs.take(0) =~= Seq::<DataFrame>::empty());
            }
        }
        let mut j: usize = 0;
        while j < n
            invariant
                n == dfs.len(),
                n == data_frames@.len(),
                dfs == derefs(data_frames@),
                forall|i: int| 0 <= i < dfs.len() ==> (#[trigger] dfs[i]).wf(),
                fcount == fields@.len(),
                fidx < fcount,
                fields@.map(|q: int, f: Field| f@) == ufields,
                fname == ufields[fidx as int].name,
                fname == fields@[fidx as int]@.name,
                ufields == spec_union_fields(dfs),
                j <= n,
                s.wf(),
                s.spec_dtype() == ufields[fidx as int].data_type,
                s@ == spec_union_col(dfs.take(j as int), fname),
                forall|i: int| 0 <= i < j ==> spec_col_compat(
                    #[trigger] dfs[i],
                    ufields[fidx as int],
                ),
            decreases n - j,
        {
            let df: &DataFrame = data_frames[j];
            proof {
                assert(dfs.take(j + 1).drop_last() =~= dfs.take(j as int));
                assert(dfs.take(j + 1).last() == dfs[j as int]);
                assert(dfs[j as int] == *df);
                assert(df.wf());
                df.lemma_rectangular();
            }
            if !df.is_empty() {
                let found = df.get_column_index(fields[fidx].name.as_str());
                match found {
                    Some(ci) => {
                        proof {
                            lemma_find_some(df.spec_fields(), fname, ci as int);
                        }
                        let arrays = df.data();
                        let piece: &Series = &arrays[ci];
                        proof {
                            assert(piece@ == df.spec_cols()[ci as int]);
                            assert(piece.spec_dtype() == df.spec_dtypes()[ci as int]);
                            assert(piece.wf());
                        }
                        let res = s.append_series(piece);
                        match res {
                            Ok(()) => {
                                proof {
                                    assert(spec_contrib(*df, fname) == df.spec_cols()[ci as int]);
                                    assert(s@ =~= spec_union_col(dfs.take(j + 1), fname));
                                }
                            },
                            Err(_) => {
                                proof {
                                    assert(!spec_col_compat(dfs[j as int], ufields[fidx as int]));
                                    assert(!spec_all_compat(dfs, ufields));
                                }
                                return Err(Error::TypeMismatch);
                            },
                        }
                    },
                    None => {
                        proof {
                            lemma_find_none(df.spec_fields(), fname);
                        }
                        let rows = match df.rows() {
                            Some(rr) => rr,
                            None => 0,
                        };
                        let nulls = Series::new_null(fields[fidx].data_type.duplicate(), rows);
                        let res = s.append_series(&nulls);
                        match res {
                            Ok(()) => {
                                proof {
                                    assert(spec_contrib(*df, fname) =~= nulls@);
                                    assert(s@ =~= spec_union_col(dfs.take(j + 1), fname));
                                }
                            },
                            Err(_) => {
                                proof {
                                    assert(false);
                                }
                                return Err(Error::TypeMismatch);
                            },
                        }
                    },
                }
            } else {
                proof {
                    assert(spec_contrib(*df, fname) =~= Seq::<CellV>::empty());
                    assert(s@ =~= spec_union_col(dfs.take(j + 1), fname));
                }
            }
            j += 1;
        }
        proof {
            assert(dfs.take(n as int) =~= dfs);
        }
        data.push(s);
        fidx += 1;
    }

    // Every union column has the total row count, so assembly cannot fail.
    proof {
        assert forall|q: int| 0 <= q < data@.len() implies (#[trigger] data@[q])@.len()
            == spec_total_rows(dfs) by {
            lemma_union_col_len(dfs, ufields[q].name);
        }
    }
    let ghost gmeta = meta;
    let result = DataFrame::from_parts(fields, data, Some(meta));
    match result {
        Ok(df) => {
            proof {
                assert(df.spec_fields() == ufields);
                assert forall|q: int| 0 <= q < df.spec_cols().len() implies (
                #[trigger] df.spec_cols()[q]) == spec_union_col(dfs, ufields[q].name) by {
                    assert(df.spec_cols()[q] == data@.map(|i: int, x: Series| x@)[q]);
                }
                assert forall|k: Seq<char>| #[trigger] df.spec_meta_get(k) == spec_union_meta_get(
                    dfs,
                    k,
                ) by {
                    assert(gmeta.spec_get(k) == spec_union_meta_get(dfs.take(n as int), k));
                    assert(dfs.take(n as int) == dfs) by {
                        assert(dfs.take(n as int) =~= dfs);
                    }
                    assert(df.spec_meta() == gmeta@);
                }
            }
            Ok(df)
        },
        Err(_) => {
            proof {
                assert(false);
            }
            Err(Error::TypeMismatch)
        },
    }
}

} // verus!
