//! The front-matter extractor: locates the delimiter-bounded metadata block
//! at the top of a document, parses it, and folds every top-level mapping
//! into one ordered field map.

use vstd::prelude::*;
use crate::errors::ParseError;
use crate::metadata::{insert_pairs, EntryMetadata};
use crate::raw_value::{flatten, flatten_spec, RawValue};
use crate::table::CsvProcessor;
use crate::yaml::{parse_yaml_documents, yaml_documents};

verus! {

/// The three-character metadata delimiter stands at position `j`.
pub open spec fn delim_at(s: Seq<char>, j: int) -> bool {
    s[j] == '-' && s[j + 1] == '-' && s[j + 2] == '-'
}

/// The document opens with the metadata delimiter at position 0.
pub open spec fn starts_with_delim(s: Seq<char>) -> bool {
    s.len() >= 3 && delim_at(s, 0)
}

/// The first position at or after `j` where the delimiter stands, or
/// `s.len()` if it stands nowhere later.
pub open spec fn block_end_from(s: Seq<char>, j: int) -> int
    decreases s.len() - j,
{
    if j + 3 > s.len() {
        s.len() as int
    } else if delim_at(s, j) {
        j
    } else {
        block_end_from(s, j + 1)
    }
}

/// The metadata block: the text between the opening delimiter and the next
/// delimiter, or the whole remainder when no second delimiter occurs.
pub open spec fn block_of(s: Seq<char>) -> Seq<char> {
    s.subrange(3, block_end_from(s, 3))
}

pub proof fn lemma_block_end_bounds(s: Seq<char>, j: int)
    requires
        0 <= j <= s.len(),
    ensures
        j <= block_end_from(s, j) <= s.len(),
    decreases s.len() - j,
{
    if j + 3 > s.len() {
    } else if delim_at(s, j) {
    } else {
        lemma_block_end_bounds(s, j + 1);
    }
}

/// One parsed document's contribution: a top-level mapping folds its pairs,
/// flattened, into the metadata in document order; any other document shape
/// contributes nothing.
pub open spec fn fold_doc(m: Seq<(Seq<char>, Seq<char>)>, doc: RawValue) -> Seq<
    (Seq<char>, Seq<char>),
> {
    match doc {
        RawValue::Mapping(pairs) => fold_pairs(m, pairs@),
        _ => m,
    }
}

/// Folds flattened key/value pairs into the metadata, front to back.
pub open spec fn fold_pairs(
    m: Seq<(Seq<char>, Seq<char>)>,
    pairs: Seq<(RawValue, RawValue)>,
) -> Seq<(Seq<char>, Seq<char>)>
    decreases pairs.len(),
{
    if pairs.len() == 0 {
        m
    } else {
        fold_pairs(
            insert_pairs(m, flatten_spec(pairs[0].0), flatten_spec(pairs[0].1)),
            pairs.drop_first(),
        )
    }
}

/// Folds a stream of parsed documents, front to back. A later document that
/// redeclares a key overwrites the value but keeps the key's first position.
pub open spec fn fold_docs(m: Seq<(Seq<char>, Seq<char>)>, docs: Seq<RawValue>) -> Seq<
    (Seq<char>, Seq<char>),
>
    decreases docs.len(),
{
    if docs.len() == 0 {
        m
    } else {
        fold_docs(fold_doc(m, docs[0]), docs.drop_first())
    }
}

/// The metadata that a parsed block yields.
pub open spec fn metadata_of_docs(docs: Seq<RawValue>) -> Seq<(Seq<char>, Seq<char>)> {
    fold_docs(Seq::empty(), docs)
}

/// What extraction yields on a whole document: no block means `Ok(None)`,
/// an unparseable block means `Err`, and otherwise the folded metadata.
pub open spec fn extract_spec(s: Seq<char>) -> Result<
    Option<Seq<(Seq<char>, Seq<char>)>>,
    ParseError,
> {
    if !starts_with_delim(s) {
        Ok(None)
    } else {
        match yaml_documents(block_of(s)) {
            Some(docs) => Ok(Some(metadata_of_docs(docs))),
            None => Err(ParseError),
        }
    }
}

pub proof fn lemma_fold_pairs_push(
    m: Seq<(Seq<char>, Seq<char>)>,
    t: Seq<(RawValue, RawValue)>,
    x: (RawValue, RawValue),
)
    ensures
        fold_pairs(m, t.push(x)) == insert_pairs(
            fold_pairs(m, t),
            flatten_spec(x.0),
            flatten_spec(x.1),
        ),
    decreases t.len(),
{
    reveal_with_fuel(fold_pairs, 3);
    if t.len() == 0 {
        assert(t.push(x)[0] == x);
        assert(t.push(x).drop_first() =~= Seq::<(RawValue, RawValue)>::empty());
    } else {
        assert(t.push(x)[0] == t[0]);
        assert(t.push(x).drop_first() =~= t.drop_first().push(x));
        lemma_fold_pairs_push(
            insert_pairs(m, flatten_spec(t[0].0), flatten_spec(t[0].1)),
            t.drop_first(),
            x,
        );
    }
}

pub proof fn lemma_fold_docs_push(m: Seq<(Seq<char>, Seq<char>)>, t: Seq<RawValue>, x: RawValue)
    ensures
        fold_docs(m, t.push(x)) == fold_doc(fold_docs(m, t), x),
    decreases t.len(),
{
    reveal_with_fuel(fold_docs, 3);
    if t.len() == 0 {
        assert(t.push(x)[0] == x);
        assert(t.push(x).drop_first() =~= Seq::<RawValue>::empty());
    } else {
        assert(t.push(x)[0] == t[0]);
        assert(t.push(x).drop_first() =~= t.drop_first().push(x));
        lemma_fold_docs_push(fold_doc(m, t[0]), t.drop_first(), x);
    }
}

/// Finds the end of the metadata block: the first delimiter position at or
/// after 3, or the document's end.
fn find_block_end(t: &str) -> (end: usize)
    requires
        t@.len() >= 3,
    ensures
        end == block_end_from(t@, 3),
        3 <= end <= t@.len(),
{
    proof {
        lemma_block_end_bounds(t@, 3);
    }
    let len = t.unicode_len();
    let limit = len - 3;
    let mut j: usize = 3;
    while j <= limit
        invariant
            len == t@.len(),
            len >= 3,
            limit == len - 3,
            3 <= j <= len,
            block_end_from(t@, 3) == block_end_from(t@, j as int),
        decreases limit + 1 - j,
    {
        if t.get_char(j) == '-' && t.get_char(j + 1) == '-' && t.get_char(j + 2) == '-' {
            proof {
                assert(block_end_from(t@, j as int) == j as int);
            }
            return j;
        }
        proof {
            assert(block_end_from(t@, j as int) == block_end_from(t@, j as int + 1));
        }
        j = j + 1;
    }
    proof {
        assert(block_end_from(t@, j as int) == t@.len());
    }
    len
}

impl CsvProcessor {
    /// Extracts the front-matter metadata of a document. A document that does
    /// not open with the metadata delimiter carries no metadata (`Ok(None)`,
    /// never an error); an unparseable block is a `ParseError`; otherwise all
    /// parsed documents of the block are folded, in order, into one ordered
    /// field map with unique keys.
    pub fn entry_from_markdown(text: String) -> (r: Result<Option<EntryMetadata>, ParseError>)
        ensures
            match r {
                Ok(None) => extract_spec(text@) == Ok::<Option<Seq<(Seq<char>, Seq<char>)>>, ParseError>(None),
                Ok(Some(m)) => extract_spec(text@) == Ok::<Option<Seq<(Seq<char>, Seq<char>)>>, ParseError>(Some(m@)) && m.wf(),
                Err(e) => extract_spec(text@) == Err::<Option<Seq<(Seq<char>, Seq<char>)>>, ParseError>(e),
            },
            !starts_with_delim(text@) ==> r == Ok::<Option<EntryMetadata>, ParseError>(None),
    {
        let t = text.as_str();
        let len = t.unicode_len();
        if len < 3 || t.get_char(0) != '-' || t.get_char(1) != '-' || t.get_char(2) != '-' {
            proof {
                assert(!starts_with_delim(text@));
            }
            return Ok(None);
        }
        let end = find_block_end(t);
        let block = t.substring_char(3, end);
        proof {
            assert(block@ == block_of(text@));
        }
        match parse_yaml_documents(block) {
            None => Err(ParseError),
            Some(docs) => {
                let mut meta = EntryMetadata::new();
                let nd = docs.len();
                let mut d: usize = 0;
                while d < nd
                    invariant
                        nd == docs@.len(),
                        d <= nd,
                        meta.wf(),
                        meta@ == fold_docs(Seq::empty(), docs@.take(d as int)),
                    decreases nd - d,
                {
                    match &docs[d] {
                        RawValue::Mapping(pairs) => {
                            let np = pairs.len();
                            let mut p: usize = 0;
                            while p < np
                                invariant
                                    np == pairs@.len(),
                                    p <= np,
                                    meta.wf(),
                                    meta@ == fold_pairs(
                                        fold_docs(Seq::empty(), docs@.take(d as int)),
                                        pairs@.take(p as int),
                                    ),
                                decreases np - p,
                            {
                                let k = flatten(&pairs[p].0);
                                let v = flatten(&pairs[p].1);
                                proof {
                                    lemma_fold_pairs_push(
                                        fold_docs(Seq::empty(), docs@.take(d as int)),
                                        pairs@.take(p as int),
                                        pairs@[p as int],
                                    );
                                    assert(pairs@.take(p as int + 1) =~= pairs@.take(
                                        p as int,
                                    ).push(pairs@[p as int]));
                                }
                                meta.insert(k, v);
                                p = p + 1;
                            }
                            proof {
                                assert(pairs@.take(np as int) =~= pairs@);
                            }
                        },
                        _ => {},
                    }
                    proof {
                        lemma_fold_docs_push(
                            Seq::empty(),
                            docs@.take(d as int),
                            docs@[d as int],
                        );
                        assert(docs@.take(d as int + 1) =~= docs@.take(d as int).push(
                            docs@[d as int],
                        ));
                    }
                    d = d + 1;
                }
                proof {
                    assert(docs@.take(nd as int) =~= docs@);
                }
                Ok(Some(meta))
            },
        }
    }
}

} // verus!
