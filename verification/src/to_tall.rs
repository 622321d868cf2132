use vstd::prelude::*;

use crate::attrs::{lookup_id, AttrFlag, AttrIdName, MatrixRow};
use crate::errors::PrecedenceError;
use crate::ConfigPrecedenceRule;

verus! {

/// Whether the rule set `t` already holds a rule for the pair
/// `(rank, attr_id)`.
pub open spec fn tall_has_pair(t: Seq<ConfigPrecedenceRule>, rank: i32, attr_id: i32) -> bool {
    exists|k: int| 0 <= k < t.len() && t[k].rank == rank && t[k].attr_id == attr_id
}

/// Processes the attribute cells of one matrix row of rank `rank`, in order,
/// extending the accumulated rule set `acc`: unresolved names are skipped, a
/// flag outside {0, 1} or a repeated `(rank, attr_id)` pair stops the
/// conversion with the corresponding error.
pub open spec fn m2t_attrs(
    cvid: i32,
    rank: i32,
    attrs: Seq<AttrFlag>,
    m: Seq<AttrIdName>,
    acc: Seq<ConfigPrecedenceRule>,
) -> Result<Seq<ConfigPrecedenceRule>, PrecedenceError>
    decreases attrs.len(),
{
    if attrs.len() == 0 {
        Ok(acc)
    } else {
        let a = attrs[0];
        match lookup_id(m, a.name@) {
            None => m2t_attrs(cvid, rank, attrs.drop_first(), m, acc),
            Some(id) => {
                if a.flag > 1 {
                    Err(PrecedenceError::InvalidMatchType { rank, attr_id: id, match_type: a.flag })
                } else if tall_has_pair(acc, rank, id) {
                    Err(PrecedenceError::DuplicateKey { rank, attr_id: id })
                } else {
                    m2t_attrs(
                        cvid,
                        rank,
                        attrs.drop_first(),
                        m,
                        acc.push(
                            ConfigPrecedenceRule {
                                config_version_id: cvid,
                                rank,
                                attr_id: id,
                                match_type: a.flag,
                            },
                        ),
                    )
                }
            },
        }
    }
}

/// Processes matrix rows in order, extending `acc` row by row. A rank below 1
/// stops the conversion with `InvalidRank`.
pub open spec fn m2t_rows(
    cvid: i32,
    rows: Seq<MatrixRow>,
    m: Seq<AttrIdName>,
    acc: Seq<ConfigPrecedenceRule>,
) -> Result<Seq<ConfigPrecedenceRule>, PrecedenceError>
    decreases rows.len(),
{
    if rows.len() == 0 {
        Ok(acc)
    } else if rows[0].rank <= 0 {
        Err(PrecedenceError::InvalidRank { rank: rows[0].rank })
    } else {
        match m2t_attrs(cvid, rows[0].rank, rows[0].attrs@, m, acc) {
            Ok(acc2) => m2t_rows(cvid, rows.drop_first(), m, acc2),
            Err(e) => Err(e),
        }
    }
}

/// The matrix-to-tall conversion on the abstract level: the fold over all
/// rows, with an empty outcome rejected as `EmptyResult`.
pub open spec fn spec_matrix_to_tall(
    rows: Seq<MatrixRow>,
    cvid: i32,
    m: Seq<AttrIdName>,
) -> Result<Seq<ConfigPrecedenceRule>, PrecedenceError> {
    match m2t_rows(cvid, rows, m, Seq::empty()) {
        Ok(t) => if t.len() == 0 {
            Err(PrecedenceError::EmptyResult)
        } else {
            Ok(t)
        },
        Err(e) => Err(e),
    }
}

/// Splitting the attribute cells of a row splits the fold: the second part
/// continues from the first part's outcome.
pub proof fn lemma_m2t_attrs_concat(
    cvid: i32,
    rank: i32,
    s1: Seq<AttrFlag>,
    s2: Seq<AttrFlag>,
    m: Seq<AttrIdName>,
    acc: Seq<ConfigPrecedenceRule>,
)
    ensures
        m2t_attrs(cvid, rank, s1 + s2, m, acc) == (match m2t_attrs(cvid, rank, s1, m, acc) {
            Ok(a) => m2t_attrs(cvid, rank, s2, m, a),
            Err(e) => Err::<Seq<ConfigPrecedenceRule>, PrecedenceError>(e),
        }),
    decreases s1.len(),
{
    if s1.len() == 0 {
        assert(s1 + s2 =~= s2);
    } else {
        assert((s1 + s2)[0] == s1[0]);
        assert((s1 + s2).drop_first() =~= s1.drop_first() + s2);
        let a = s1[0];
        match lookup_id(m, a.name@) {
            None => {
                lemma_m2t_attrs_concat(cvid, rank, s1.drop_first(), s2, m, acc);
            },
            Some(id) => {
                if a.flag <= 1 && !tall_has_pair(acc, rank, id) {
                    lemma_m2t_attrs_concat(
                        cvid,
                        rank,
                        s1.drop_first(),
                        s2,
                        m,
                        acc.push(
                            ConfigPrecedenceRule {
                                config_version_id: cvid,
                                rank,
                                attr_id: id,
                                match_type: a.flag,
                            },
                        ),
                    );
                }
            },
        }
    }
}

/// Splitting the row sequence splits the fold in the same way.
pub proof fn lemma_m2t_rows_concat(
    cvid: i32,
    s1: Seq<MatrixRow>,
    s2: Seq<MatrixRow>,
    m: Seq<AttrIdName>,
    acc: Seq<ConfigPrecedenceRule>,
)
    ensures
        m2t_rows(cvid, s1 + s2, m, acc) == (match m2t_rows(cvid, s1, m, acc) {
            Ok(a) => m2t_rows(cvid, s2, m, a),
            Err(e) => Err::<Seq<ConfigPrecedenceRule>, PrecedenceError>(e),
        }),
    decreases s1.len(),
{
    if s1.len() == 0 {
        assert(s1 + s2 =~= s2);
    } else {
        assert((s1 + s2)[0] == s1[0]);
        assert((s1 + s2).drop_first() =~= s1.drop_first() + s2);
        if s1[0].rank > 0 {
            match m2t_attrs(cvid, s1[0].rank, s1[0].attrs@, m, acc) {
                Ok(acc2) => {
                    lemma_m2t_rows_concat(cvid, s1.drop_first(), s2, m, acc2);
                },
                Err(e) => {},
            }
        }
    }
}

/// Whether the rule set built so far already holds the pair.
fn tall_contains_pair(t: &Vec<ConfigPrecedenceRule>, rank: i32, attr_id: i32) -> (r: bool)
    ensures
        r == tall_has_pair(t@, rank, attr_id),
{
    let mut k: usize = 0;
    while k < t.len()
        invariant
            0 <= k <= t@.len(),
            forall|j: int| 0 <= j < k ==> !(t@[j].rank == rank && t@[j].attr_id == attr_id),
        decreases t@.len() - k,
    {
        if t[k].rank == rank && t[k].attr_id == attr_id {
            assert(t@[k as int].rank == rank && t@[k as int].attr_id == attr_id);
            return true;
        }
        k = k + 1;
    }
    false
}

/// Converts matrix rows into tall rules with resolved attribute ids.
///
/// Rows are processed in order, the attribute cells of each row in order.
/// A rank below 1 fails with `InvalidRank`; an attribute name absent from
/// `attr_name_to_id` is skipped; a resolved flag outside {0, 1} fails with
/// `InvalidMatchType`; a repeated `(rank, attr_id)` pair across the whole
/// input fails with `DuplicateKey`; zero resulting rules fail with
/// `EmptyResult`.
#[verifier::loop_isolation(false)]
pub fn matrix_to_tall(
    rows: &Vec<MatrixRow>,
    config_version_id: i32,
    attr_name_to_id: &Vec<AttrIdName>,
) -> (r: Result<Vec<ConfigPrecedenceRule>, PrecedenceError>)
    ensures
        (match r {
            Ok(t) => spec_matrix_to_tall(rows@, config_version_id, attr_name_to_id@) == Ok::<
                Seq<ConfigPrecedenceRule>,
                PrecedenceError,
            >(t@),
            Err(e) => spec_matrix_to_tall(rows@, config_version_id, attr_name_to_id@) == Err::<
                Seq<ConfigPrecedenceRule>,
                PrecedenceError,
            >(e),
        }),
{
    let cvid = config_version_id;
    let ghost mv = attr_name_to_id@;
    let mut tall: Vec<ConfigPrecedenceRule> = Vec::new();
    let mut i: usize = 0;
    while i < rows.len()
        invariant
            0 <= i <= rows@.len(),
            m2t_rows(cvid, rows@.take(i as int), mv, Seq::empty()) == Ok::<
                Seq<ConfigPrecedenceRule>,
                PrecedenceError,
            >(tall@),
        decreases rows@.len() - i,
    {
        let row = &rows[i];
        proof {
            assert(rows@ =~= rows@.take(i as int) + rows@.skip(i as int));
            lemma_m2t_rows_concat(cvid, rows@.take(i as int), rows@.skip(i as int), mv, Seq::empty());
            assert(rows@.skip(i as int)[0] == rows@[i as int]);
        }
        if row.rank <= 0 {
            return Err(PrecedenceError::InvalidRank { rank: row.rank });
        }
        let ghost acc0 = tall@;
        let mut j: usize = 0;
        while j < row.attrs.len()
            invariant
                0 <= j <= row.attrs@.len(),
                m2t_attrs(cvid, row.rank, row.attrs@.take(j as int), mv, acc0) == Ok::<
                    Seq<ConfigPrecedenceRule>,
                    PrecedenceError,
                >(tall@),
            decreases row.attrs@.len() - j,
        {
            let ghost cur = tall@;
            proof {
                assert(row.attrs@ =~= row.attrs@.take(j as int) + row.attrs@.skip(j as int));
                lemma_m2t_attrs_concat(
                    cvid,
                    row.rank,
                    row.attrs@.take(j as int),
                    row.attrs@.skip(j as int),
                    mv,
                    acc0,
                );
                assert(row.attrs@.skip(j as int)[0] == row.attrs@[j as int]);
                assert(row.attrs@.take(j as int + 1) =~= row.attrs@.take(j as int) + seq![
                    row.attrs@[j as int],
                ]);
                lemma_m2t_attrs_concat(
                    cvid,
                    row.rank,
                    row.attrs@.take(j as int),
                    seq![row.attrs@[j as int]],
                    mv,
                    acc0,
                );
                assert(seq![row.attrs@[j as int]][0] == row.attrs@[j as int]);
                assert(seq![row.attrs@[j as int]].drop_first() =~= Seq::<AttrFlag>::empty());
            }
            let a = &row.attrs[j];
            proof {
                assert(*a == row.attrs@[j as int]);
            }
            match crate::attrs::lookup_attr_id(attr_name_to_id, &a.name) {
                None => {
                    proof {
                        assert(m2t_attrs(cvid, row.rank, Seq::<AttrFlag>::empty(), mv, cur)
                            == Ok::<Seq<ConfigPrecedenceRule>, PrecedenceError>(cur));
                        assert(m2t_attrs(cvid, row.rank, seq![row.attrs@[j as int]], mv, cur)
                            == Ok::<Seq<ConfigPrecedenceRule>, PrecedenceError>(cur));
                    }
                },
                Some(id) => {
                    if a.flag > 1 {
                        // Both the row fold and the whole-input fold stop with
                        // this error.
                        return Err(
                            PrecedenceError::InvalidMatchType {
                                rank: row.rank,
                                attr_id: id,
                                match_type: a.flag,
                            },
                        );
                    }
                    if tall_contains_pair(&tall, row.rank, id) {
                        return Err(PrecedenceError::DuplicateKey { rank: row.rank, attr_id: id });
                    }
                    let rule = ConfigPrecedenceRule {
                        config_version_id: cvid,
                        rank: row.rank,
                        attr_id: id,
                        match_type: a.flag,
                    };
                    tall.push(rule);
                    proof {
                        assert(tall@ == cur.push(rule));
                        assert(m2t_attrs(cvid, row.rank, Seq::<AttrFlag>::empty(), mv, cur.push(rule))
                            == Ok::<Seq<ConfigPrecedenceRule>, PrecedenceError>(cur.push(rule)));
                        assert(m2t_attrs(cvid, row.rank, seq![row.attrs@[j as int]], mv, cur)
                            == Ok::<Seq<ConfigPrecedenceRule>, PrecedenceError>(cur.push(rule)));
                    }
                },
            }
            j = j + 1;
        }
        proof {
            assert(row.attrs@.take(row.attrs@.len() as int) =~= row.attrs@);
            assert(rows@.take(i as int + 1) =~= rows@.take(i as int) + seq![rows@[i as int]]);
            lemma_m2t_rows_concat(cvid, rows@.take(i as int), seq![rows@[i as int]], mv, Seq::empty());
            assert(seq![rows@[i as int]][0] == rows@[i as int]);
            assert(seq![rows@[i as int]].drop_first() =~= Seq::<MatrixRow>::empty());
            assert(*row == rows@[i as int]);
            assert(m2t_attrs(cvid, rows@[i as int].rank, rows@[i as int].attrs@, mv, acc0)
                == Ok::<Seq<ConfigPrecedenceRule>, PrecedenceError>(tall@));
            assert(m2t_rows(cvid, Seq::<MatrixRow>::empty(), mv, tall@)
                == Ok::<Seq<ConfigPrecedenceRule>, PrecedenceError>(tall@));
            assert(m2t_rows(cvid, seq![rows@[i as int]], mv, acc0)
                == Ok::<Seq<ConfigPrecedenceRule>, PrecedenceError>(tall@));
        }
        i = i + 1;
    }
    proof {
        assert(rows@.take(rows@.len() as int) =~= rows@);
    }
    if tall.len() == 0 {
        return Err(PrecedenceError::EmptyResult);
    }
    Ok(tall)
}

} // verus!
