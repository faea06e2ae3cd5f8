//! The index builder: folds the metadata of every document of a corpus into
//! one table. The header is the union of all observed field names in
//! first-seen order; every entry contributes one row of exactly that width,
//! with empty cells for fields it does not declare. A document whose block
//! fails to parse is recorded against its path and skipped; it never aborts
//! the rebuild.

use vstd::prelude::*;
use crate::errors::ParseError;
use crate::front_matter::extract_spec;
use crate::metadata::{lookup, str_eq, EntryMetadata};
use crate::table::{CsvProcessor, CsvTable};

verus! {

/// The metadata of the documents that carry a parseable block, in document
/// order. Each document is a (path, text) pair; only the text decides.
pub open spec fn metas_of(docs: Seq<(Seq<char>, Seq<char>)>) -> Seq<Seq<(Seq<char>, Seq<char>)>>
    decreases docs.len(),
{
    if docs.len() == 0 {
        Seq::empty()
    } else {
        let init = metas_of(docs.drop_last());
        match extract_spec(docs.last().1) {
            Ok(Some(m)) => init.push(m),
            _ => init,
        }
    }
}

/// The (path, error) pairs of the documents whose block failed to parse, in
/// document order.
pub open spec fn errors_of(docs: Seq<(Seq<char>, Seq<char>)>) -> Seq<(Seq<char>, ParseError)>
    decreases docs.len(),
{
    if docs.len() == 0 {
        Seq::empty()
    } else {
        let init = errors_of(docs.drop_last());
        match extract_spec(docs.last().1) {
            Err(e) => init.push((docs.last().0, e)),
            _ => init,
        }
    }
}

/// Appends, in order, each key of `m` that `h` does not yet hold.
pub open spec fn add_keys(h: Seq<Seq<char>>, m: Seq<(Seq<char>, Seq<char>)>) -> Seq<Seq<char>>
    decreases m.len(),
{
    if m.len() == 0 {
        h
    } else {
        let h1 = add_keys(h, m.drop_last());
        if h1.contains(m.last().0) {
            h1
        } else {
            h1.push(m.last().0)
        }
    }
}

/// The union of all observed field names, in first-seen order.
pub open spec fn union_header(metas: Seq<Seq<(Seq<char>, Seq<char>)>>) -> Seq<Seq<char>>
    decreases metas.len(),
{
    if metas.len() == 0 {
        Seq::empty()
    } else {
        add_keys(union_header(metas.drop_last()), metas.last())
    }
}

/// One entry's row under a header: its value for each column it declares,
/// and an empty cell for each column it does not.
pub open spec fn row_for(h: Seq<Seq<char>>, m: Seq<(Seq<char>, Seq<char>)>) -> Seq<Seq<char>> {
    Seq::new(
        h.len(),
        |i: int|
            match lookup(m, h[i]) {
                Some(v) => v,
                None => Seq::empty(),
            },
    )
}

pub open spec fn rows_for(
    h: Seq<Seq<char>>,
    metas: Seq<Seq<(Seq<char>, Seq<char>)>>,
) -> Seq<Seq<Seq<char>>> {
    Seq::new(metas.len(), |i: int| row_for(h, metas[i]))
}

/// What a rebuild of `docs` must yield: the union header, one reconciled row
/// per parseable entry, and the skip list of unparseable documents.
pub open spec fn rebuild_post(
    docs: Seq<(Seq<char>, Seq<char>)>,
    table: (Seq<Seq<char>>, Seq<Seq<Seq<char>>>),
    errs: Seq<(Seq<char>, ParseError)>,
) -> bool {
    &&& table.0 == union_header(metas_of(docs))
    &&& table.1 == rows_for(table.0, metas_of(docs))
    &&& errs == errors_of(docs)
}

/// The views of a list of metadata maps.
pub open spec fn metas_view(ms: Seq<EntryMetadata>) -> Seq<Seq<(Seq<char>, Seq<char>)>> {
    Seq::new(ms.len(), |i: int| ms[i]@)
}

/// The views of a list of (path, error) pairs.
pub open spec fn errs_view(es: Seq<(String, ParseError)>) -> Seq<(Seq<char>, ParseError)> {
    Seq::new(es.len(), |i: int| (es[i].0@, es[i].1))
}

/// Rebuilding an unchanged document list twice yields identical tables and
/// skip lists: the outcome is a function of the (path, text) pairs alone.
pub proof fn lemma_rebuild_deterministic(
    docs: Seq<(Seq<char>, Seq<char>)>,
    t1: CsvTable,
    e1: Seq<(Seq<char>, ParseError)>,
    t2: CsvTable,
    e2: Seq<(Seq<char>, ParseError)>,
)
    requires
        rebuild_post(docs, t1@, e1),
        rebuild_post(docs, t2@, e2),
    ensures
        t1@ == t2@,
        e1 == e2,
{
}

pub proof fn lemma_push_keeps_contains(h: Seq<Seq<char>>, y: Seq<char>, x: Seq<char>)
    requires
        h.contains(x),
    ensures
        h.push(y).contains(x),
{
    let i = choose|i: int| 0 <= i < h.len() && h[i] == x;
    assert(h.push(y)[i] == x);
}

pub proof fn lemma_add_keys_keeps(h: Seq<Seq<char>>, m: Seq<(Seq<char>, Seq<char>)>, x: Seq<char>)
    requires
        h.contains(x),
    ensures
        add_keys(h, m).contains(x),
    decreases m.len(),
{
    if m.len() == 0 {
    } else {
        lemma_add_keys_keeps(h, m.drop_last(), x);
        let h1 = add_keys(h, m.drop_last());
        if !h1.contains(m.last().0) {
            lemma_push_keeps_contains(h1, m.last().0, x);
        }
    }
}

pub proof fn lemma_add_keys_adds(h: Seq<Seq<char>>, m: Seq<(Seq<char>, Seq<char>)>, p: int)
    requires
        0 <= p < m.len(),
    ensures
        add_keys(h, m).contains(m[p].0),
    decreases m.len(),
{
    let h1 = add_keys(h, m.drop_last());
    if p == m.len() - 1 {
        if !h1.contains(m.last().0) {
            assert(h1.push(m.last().0)[h1.len() as int] == m.last().0);
        }
    } else {
        lemma_add_keys_adds(h, m.drop_last(), p);
        assert(m.drop_last()[p] == m[p]);
        if !h1.contains(m.last().0) {
            lemma_push_keeps_contains(h1, m.last().0, m[p].0);
        }
    }
}

/// The header really is the union of the observed field names: every field
/// of every parsed entry has a column in the reconciled header.
pub proof fn lemma_union_header_complete(
    metas: Seq<Seq<(Seq<char>, Seq<char>)>>,
    k: int,
    p: int,
)
    requires
        0 <= k < metas.len(),
        0 <= p < metas[k].len(),
    ensures
        union_header(metas).contains(metas[k][p].0),
    decreases metas.len(),
{
    if k == metas.len() - 1 {
        assert(metas.last() == metas[k]);
        lemma_add_keys_adds(union_header(metas.drop_last()), metas.last(), p);
    } else {
        assert(metas.drop_last()[k] == metas[k]);
        lemma_union_header_complete(metas.drop_last(), k, p);
        lemma_add_keys_keeps(union_header(metas.drop_last()), metas.last(), metas[k][p].0);
    }
}

/// Whether some element of `v` views as `s`.
fn vec_contains_string(v: &Vec<String>, s: &str) -> (r: bool)
    ensures
        r == v.deep_view().contains(s@),
{
    let n = v.len();
    let mut i: usize = 0;
    while i < n
        invariant
            n == v@.len(),
            i <= n,
            forall|j: int| 0 <= j < i ==> v@[j]@ != s@,
        decreases n - i,
    {
        if str_eq(v[i].as_str(), s) {
            proof {
                assert(v.deep_view()[i as int] == s@);
            }
            return true;
        }
        i = i + 1;
    }
    proof {
        assert forall|j: int| 0 <= j < v.deep_view().len() implies v.deep_view()[j] != s@ by {
            assert(v.deep_view()[j] == v@[j]@);
        }
    }
    false
}

impl CsvProcessor {
    /// Rebuilds the corpus index from the documents' (path, text) pairs, in
    /// the order given. Yields the reconciled table together with one
    /// (path, error) pair for every document whose metadata block failed to
    /// parse; a bad document never aborts the rebuild. Every row is exactly
    /// as long as the header.
    pub fn rebuild(documents: &Vec<(String, String)>) -> (r: (CsvTable, Vec<(String, ParseError)>))
        ensures
            rebuild_post(documents.deep_view(), r.0@, errs_view(r.1@)),
            r.0.rectangular(),
    {
        let n = documents.len();
        let mut metas: Vec<EntryMetadata> = Vec::new();
        let mut errors: Vec<(String, ParseError)> = Vec::new();
        let mut i: usize = 0;
        while i < n
            invariant
                n == documents@.len(),
                i <= n,
                metas_view(metas@) == metas_of(documents.deep_view().take(i as int)),
                errs_view(errors@) == errors_of(documents.deep_view().take(i as int)),
            decreases n - i,
        {
            let ghost dv = documents.deep_view();
            proof {
                assert(dv[i as int] == (documents@[i as int].0@, documents@[i as int].1@));
                assert(dv.take(i as int + 1).drop_last() =~= dv.take(i as int));
                assert(dv.take(i as int + 1).last() == dv[i as int]);
            }
            let text = documents[i].1.clone();
            match Self::entry_from_markdown(text) {
                Ok(Some(m)) => {
                    metas.push(m);
                    proof {
                        assert(metas_view(metas@) =~= metas_view(metas@.drop_last()).push(m@));
                        assert(errs_view(errors@) == errors_of(dv.take(i as int + 1)));
                    }
                },
                Ok(None) => {},
                Err(e) => {
                    errors.push((documents[i].0.clone(), e));
                    proof {
                        assert(errs_view(errors@) =~= errs_view(errors@.drop_last()).push(
                            (documents@[i as int].0@, e),
                        ));
                        assert(metas_view(metas@) == metas_of(dv.take(i as int + 1)));
                    }
                },
            }
            i = i + 1;
        }
        proof {
            assert(documents.deep_view().take(n as int) =~= documents.deep_view());
        }
        let ghost mv = metas_of(documents.deep_view());

        // Union-header reconciliation: collect all field names, first seen
        // first.
        let nm = metas.len();
        let mut header: Vec<String> = Vec::new();
        let mut k: usize = 0;
        while k < nm
            invariant
                nm == metas@.len(),
                k <= nm,
                metas_view(metas@) == mv,
                header.deep_view() == union_header(mv.take(k as int)),
            decreases nm - k,
        {
            proof {
                assert(mv.take(k as int + 1).drop_last() =~= mv.take(k as int));
                assert(mv.take(k as int + 1).last() == mv[k as int]);
                assert(mv[k as int] == metas@[k as int]@);
            }
            let np = metas[k].len();
            let mut p: usize = 0;
            while p < np
                invariant
                    nm == metas@.len(),
                    k < nm,
                    np == metas@[k as int]@.len(),
                    p <= np,
                    metas_view(metas@) == mv,
                    header.deep_view() == add_keys(
                        union_header(mv.take(k as int)),
                        metas@[k as int]@.take(p as int),
                    ),
                decreases np - p,
            {
                let ghost m0 = metas@[k as int]@;
                proof {
                    assert(m0.take(p as int + 1).drop_last() =~= m0.take(p as int));
                    assert(m0.take(p as int + 1).last() == m0[p as int]);
                }
                let key = &metas[k].pair(p).0;
                if !vec_contains_string(&header, key.as_str()) {
                    header.push(key.clone());
                    proof {
                        assert(header.deep_view() =~= header.deep_view().drop_last().push(
                            m0[p as int].0,
                        ));
                    }
                }
                p = p + 1;
            }
            proof {
                assert(metas@[k as int]@.take(np as int) =~= metas@[k as int]@);
            }
            k = k + 1;
        }
        proof {
            assert(mv.take(nm as int) =~= mv);
        }

        // One row per entry, in entry order, each exactly as long as the
        // header.
        let ghost hv = header.deep_view();
        let nh = header.len();
        let mut rows: Vec<Vec<String>> = Vec::new();
        let mut k2: usize = 0;
        while k2 < nm
            invariant
                nm == metas@.len(),
                k2 <= nm,
                metas_view(metas@) == mv,
                hv == header.deep_view(),
                nh == header@.len(),
                rows@.len() == k2,
                rows.deep_view() == rows_for(hv, mv).take(k2 as int),
            decreases nm - k2,
        {
            let mut row: Vec<String> = Vec::new();
            let mut c: usize = 0;
            while c < nh
                invariant
                    nm == metas@.len(),
                    k2 < nm,
                    metas_view(metas@) == mv,
                    hv == header.deep_view(),
                    nh == header@.len(),
                    c <= nh,
                    row@.len() == c,
                    row.deep_view() == row_for(hv, mv[k2 as int]).take(c as int),
                decreases nh - c,
            {
                proof {
                    assert(hv[c as int] == header@[c as int]@);
                    assert(mv[k2 as int] == metas@[k2 as int]@);
                }
                match metas[k2].get(header[c].as_str()) {
                    Some(v) => {
                        proof {
                            assert(lookup(mv[k2 as int], hv[c as int]) == Some(v@));
                            assert(row_for(hv, mv[k2 as int])[c as int] == v@);
                        }
                        row.push(v.clone());
                    },
                    None => {
                        proof {
                            assert(lookup(mv[k2 as int], hv[c as int]) is None);
                            assert(row_for(hv, mv[k2 as int])[c as int] == Seq::<char>::empty());
                        }
                        row.push(String::new());
                    },
                }
                proof {
                    assert(row@[c as int]@ == row_for(hv, mv[k2 as int])[c as int]);
                    assert(row.deep_view() =~= row_for(hv, mv[k2 as int]).take(c as int + 1));
                }
                c = c + 1;
            }
            proof {
                assert(row_for(hv, mv[k2 as int]).take(nh as int) =~= row_for(hv, mv[k2 as int]));
            }
            rows.push(row);
            proof {
                assert(rows.deep_view() =~= rows_for(hv, mv).take(k2 as int + 1));
            }
            k2 = k2 + 1;
        }
        proof {
            assert(rows_for(hv, mv).take(nm as int) =~= rows_for(hv, mv));
        }
        let table = CsvTable { header, rows };
        (table, errors)
    }
}

} // verus!
