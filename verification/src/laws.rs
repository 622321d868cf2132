use vstd::prelude::*;

use crate::attrs::{lookup_id, lookup_name, AttrIdName, MatrixRow};
use crate::errors::{PrecedenceError, ValueError};
use crate::to_matrix::{lemma_t2m_fold_concat, spec_tall_to_matrix, t2m_fold};
use crate::to_tall::{lemma_m2t_rows_concat, m2t_attrs, m2t_rows, spec_matrix_to_tall};
use crate::values::{
    lemma_parse_values_concat, lookup_meta, spec_parse_config_values, spec_parse_param,
    spec_parse_values, AttrMeta, ConfigValue, RawParam,
};
use crate::ConfigPrecedenceRule;

verus! {

/// A matrix fold that succeeds saw no rank below 1.
pub proof fn lemma_m2t_rows_ok_ranks(
    cvid: i32,
    rows: Seq<MatrixRow>,
    m: Seq<AttrIdName>,
    acc: Seq<ConfigPrecedenceRule>,
)
    requires
        m2t_rows(cvid, rows, m, acc) is Ok,
    ensures
        forall|i: int| 0 <= i < rows.len() ==> rows[i].rank >= 1,
    decreases rows.len(),
{
    if rows.len() == 0 {
    } else {
        match m2t_attrs(cvid, rows[0].rank, rows[0].attrs@, m, acc) {
            Ok(acc2) => {
                lemma_m2t_rows_ok_ranks(cvid, rows.drop_first(), m, acc2);
                assert forall|i: int| 0 <= i < rows.len() implies rows[i].rank >= 1 by {
                    if i >= 1 {
                        assert(rows.drop_first()[i - 1] == rows[i]);
                    }
                }
            },
            Err(e) => {
                assert(false);
            },
        }
    }
}

/// Rank positivity, matrix side: any input holding a row with a rank at or
/// below 0 fails, whatever else the input holds.
pub proof fn theorem_matrix_rank_positivity(
    rows: Seq<MatrixRow>,
    cvid: i32,
    m: Seq<AttrIdName>,
)
    requires
        exists|i: int| 0 <= i < rows.len() && rows[i].rank <= 0,
    ensures
        spec_matrix_to_tall(rows, cvid, m) is Err,
{
    if m2t_rows(cvid, rows, m, Seq::empty()) is Ok {
        lemma_m2t_rows_ok_ranks(cvid, rows, m, Seq::empty());
        let i = choose|i: int| 0 <= i < rows.len() && rows[i].rank <= 0;
        assert(rows[i].rank >= 1);
    }
}

/// Rank positivity, matrix side, with the exact report: when the rows before
/// row `k` convert cleanly and row `k` carries a nonpositive rank, the
/// conversion fails with `InvalidRank` naming that rank.
pub proof fn theorem_matrix_invalid_rank_reported(
    rows: Seq<MatrixRow>,
    cvid: i32,
    m: Seq<AttrIdName>,
    k: int,
)
    requires
        0 <= k < rows.len(),
        rows[k].rank <= 0,
        m2t_rows(cvid, rows.take(k), m, Seq::empty()) is Ok,
    ensures
        spec_matrix_to_tall(rows, cvid, m) == Err::<Seq<ConfigPrecedenceRule>, PrecedenceError>(
            PrecedenceError::InvalidRank { rank: rows[k].rank },
        ),
{
    assert(rows =~= rows.take(k) + rows.skip(k));
    lemma_m2t_rows_concat(cvid, rows.take(k), rows.skip(k), m, Seq::empty());
    assert(rows.skip(k)[0] == rows[k]);
}

/// A tall fold that succeeds saw no rank below 1 and no flag outside {0, 1}.
pub proof fn lemma_t2m_fold_ok_valid(
    rules: Seq<ConfigPrecedenceRule>,
    m: Seq<AttrIdName>,
    groups: Seq<(i32, Seq<(Seq<char>, u8)>)>,
)
    requires
        t2m_fold(rules, m, groups) is Ok,
    ensures
        forall|k: int| 0 <= k < rules.len() ==> rules[k].rank >= 1,
        forall|k: int| 0 <= k < rules.len() ==> rules[k].match_type <= 1,
    decreases rules.len(),
{
    if rules.len() == 0 {
    } else {
        let r = rules[0];
        if r.rank > 0 && r.match_type <= 1 {
            match crate::attrs::lookup_name(m, r.attr_id) {
                None => {
                    lemma_t2m_fold_ok_valid(rules.drop_first(), m, groups);
                },
                Some(name) => {
                    lemma_t2m_fold_ok_valid(
                        rules.drop_first(),
                        m,
                        crate::to_matrix::insert_rule_grouped(groups, r.rank, name, r.match_type),
                    );
                },
            }
            assert forall|k: int| 0 <= k < rules.len() implies rules[k].rank >= 1 && rules[k].match_type <= 1 by {
                if k >= 1 {
                    assert(rules.drop_first()[k - 1] == rules[k]);
                }
            }
        }
    }
}

/// Rank positivity, tall side: any rule set holding a rank at or below 0
/// fails.
pub proof fn theorem_tall_rank_positivity(rules: Seq<ConfigPrecedenceRule>, m: Seq<AttrIdName>)
    requires
        exists|k: int| 0 <= k < rules.len() && rules[k].rank <= 0,
    ensures
        spec_tall_to_matrix(rules, m) is Err,
{
    if t2m_fold(rules, m, Seq::empty()) is Ok {
        lemma_t2m_fold_ok_valid(rules, m, Seq::empty());
        let k = choose|k: int| 0 <= k < rules.len() && rules[k].rank <= 0;
        assert(rules[k].rank >= 1);
    }
}

/// Rank positivity, tall side, with the exact report.
pub proof fn theorem_tall_invalid_rank_reported(
    rules: Seq<ConfigPrecedenceRule>,
    m: Seq<AttrIdName>,
    k: int,
)
    requires
        0 <= k < rules.len(),
        rules[k].rank <= 0,
        t2m_fold(rules.take(k), m, Seq::empty()) is Ok,
    ensures
        spec_tall_to_matrix(rules, m) == Err::<Seq<(i32, Seq<(Seq<char>, u8)>)>, PrecedenceError>(
            PrecedenceError::InvalidRank { rank: rules[k].rank },
        ),
{
    assert(rules =~= rules.take(k) + rules.skip(k));
    lemma_t2m_fold_concat(rules.take(k), rules.skip(k), m, Seq::empty());
    assert(rules.skip(k)[0] == rules[k]);
}

/// A row fold that succeeds saw no resolved flag outside {0, 1}.
pub proof fn lemma_m2t_attrs_ok_flags(
    cvid: i32,
    rank: i32,
    attrs: Seq<crate::attrs::AttrFlag>,
    m: Seq<AttrIdName>,
    acc: Seq<ConfigPrecedenceRule>,
)
    requires
        m2t_attrs(cvid, rank, attrs, m, acc) is Ok,
    ensures
        forall|j: int|
            0 <= j < attrs.len() && lookup_id(m, attrs[j].name@) is Some ==> attrs[j].flag <= 1,
    decreases attrs.len(),
{
    if attrs.len() == 0 {
    } else {
        let a = attrs[0];
        match lookup_id(m, a.name@) {
            None => {
                lemma_m2t_attrs_ok_flags(cvid, rank, attrs.drop_first(), m, acc);
            },
            Some(id) => {
                lemma_m2t_attrs_ok_flags(
                    cvid,
                    rank,
                    attrs.drop_first(),
                    m,
                    acc.push(
                        ConfigPrecedenceRule {
                            config_version_id: cvid,
                            rank,
                            attr_id: id,
                            match_type: a.flag,
                        },
                    ),
                );
            },
        }
        assert forall|j: int|
            0 <= j < attrs.len() && lookup_id(m, attrs[j].name@) is Some implies attrs[j].flag
            <= 1 by {
            if j >= 1 {
                assert(attrs.drop_first()[j - 1] == attrs[j]);
            }
        }
    }
}

/// A matrix fold that succeeds saw no resolved flag outside {0, 1}, in any
/// row.
pub proof fn lemma_m2t_rows_ok_flags(
    cvid: i32,
    rows: Seq<MatrixRow>,
    m: Seq<AttrIdName>,
    acc: Seq<ConfigPrecedenceRule>,
)
    requires
        m2t_rows(cvid, rows, m, acc) is Ok,
    ensures
        forall|i: int, j: int|
            0 <= i < rows.len() && 0 <= j < rows[i].attrs@.len() && lookup_id(
                m,
                rows[i].attrs@[j].name@,
            ) is Some ==> rows[i].attrs@[j].flag <= 1,
    decreases rows.len(),
{
    if rows.len() == 0 {
    } else {
        match m2t_attrs(cvid, rows[0].rank, rows[0].attrs@, m, acc) {
            Ok(acc2) => {
                lemma_m2t_attrs_ok_flags(cvid, rows[0].rank, rows[0].attrs@, m, acc);
                lemma_m2t_rows_ok_flags(cvid, rows.drop_first(), m, acc2);
                assert forall|i: int, j: int|
                    0 <= i < rows.len() && 0 <= j < rows[i].attrs@.len() && lookup_id(
                        m,
                        rows[i].attrs@[j].name@,
                    ) is Some implies rows[i].attrs@[j].flag <= 1 by {
                    if i >= 1 {
                        assert(rows.drop_first()[i - 1] == rows[i]);
                    }
                }
            },
            Err(e) => {
                assert(false);
            },
        }
    }
}

/// Flag domain, matrix side: any input holding a resolvable attribute cell
/// with a flag outside {0, 1} fails, whatever its ranks look like.
pub proof fn theorem_matrix_flag_domain(rows: Seq<MatrixRow>, cvid: i32, m: Seq<AttrIdName>)
    requires
        exists|i: int, j: int|
            0 <= i < rows.len() && 0 <= j < rows[i].attrs@.len() && lookup_id(
                m,
                rows[i].attrs@[j].name@,
            ) is Some && rows[i].attrs@[j].flag > 1,
    ensures
        spec_matrix_to_tall(rows, cvid, m) is Err,
{
    if m2t_rows(cvid, rows, m, Seq::empty()) is Ok {
        lemma_m2t_rows_ok_flags(cvid, rows, m, Seq::empty());
        let (i, j) = choose|i: int, j: int|
            0 <= i < rows.len() && 0 <= j < rows[i].attrs@.len() && lookup_id(
                m,
                rows[i].attrs@[j].name@,
            ) is Some && rows[i].attrs@[j].flag > 1;
        assert(rows[i].attrs@[j].flag <= 1);
    }
}

/// Flag domain, tall side: any rule set holding a flag outside {0, 1} fails.
pub proof fn theorem_tall_flag_domain(rules: Seq<ConfigPrecedenceRule>, m: Seq<AttrIdName>)
    requires
        exists|k: int| 0 <= k < rules.len() && rules[k].match_type > 1,
    ensures
        spec_tall_to_matrix(rules, m) is Err,
{
    if t2m_fold(rules, m, Seq::empty()) is Ok {
        lemma_t2m_fold_ok_valid(rules, m, Seq::empty());
        let k = choose|k: int| 0 <= k < rules.len() && rules[k].match_type > 1;
        assert(rules[k].match_type <= 1);
    }
}

/// Flag domain, tall side, with the exact report: when the rules before rule
/// `k` convert cleanly and rule `k` carries a valid rank but a flag outside
/// {0, 1}, the conversion fails with `InvalidMatchType` naming the rule.
pub proof fn theorem_tall_invalid_match_type_reported(
    rules: Seq<ConfigPrecedenceRule>,
    m: Seq<AttrIdName>,
    k: int,
)
    requires
        0 <= k < rules.len(),
        rules[k].rank >= 1,
        rules[k].match_type > 1,
        t2m_fold(rules.take(k), m, Seq::empty()) is Ok,
    ensures
        spec_tall_to_matrix(rules, m) == Err::<Seq<(i32, Seq<(Seq<char>, u8)>)>, PrecedenceError>(
            PrecedenceError::InvalidMatchType {
                rank: rules[k].rank,
                attr_id: rules[k].attr_id,
                match_type: rules[k].match_type,
            },
        ),
{
    assert(rules =~= rules.take(k) + rules.skip(k));
    lemma_t2m_fold_concat(rules.take(k), rules.skip(k), m, Seq::empty());
    assert(rules.skip(k)[0] == rules[k]);
}

/// A parameter fold that succeeds extends its accumulator with exactly one
/// typed value per parameter, in order, each the parse of its parameter.
pub proof fn lemma_parse_values_ok_shape(
    match_id: i32,
    params: Seq<RawParam>,
    lk: Seq<AttrMeta>,
    acc: Seq<ConfigValue>,
)
    requires
        spec_parse_values(match_id, params, lk, acc) is Ok,
    ensures
        spec_parse_values(match_id, params, lk, acc)->Ok_0.len() == acc.len() + params.len(),
        forall|k: int|
            0 <= k < acc.len() ==> spec_parse_values(match_id, params, lk, acc)->Ok_0[k] == acc[k],
        forall|j: int|
            0 <= j < params.len() ==> spec_parse_param(match_id, lk, params[j]) == Ok::<
                ConfigValue,
                ValueError,
            >(spec_parse_values(match_id, params, lk, acc)->Ok_0[acc.len() + j]),
    decreases params.len(),
{
    if params.len() == 0 {
    } else {
        match spec_parse_param(match_id, lk, params[0]) {
            Ok(cv) => {
                lemma_parse_values_ok_shape(match_id, params.drop_first(), lk, acc.push(cv));
                let rest = spec_parse_values(match_id, params.drop_first(), lk, acc.push(cv));
                assert(spec_parse_values(match_id, params, lk, acc) == rest);
                assert forall|k: int|
                    0 <= k < acc.len() implies spec_parse_values(match_id, params, lk, acc)->Ok_0[k]
                    == acc[k] by {
                    assert(rest->Ok_0[k] == acc.push(cv)[k]);
                    assert(acc.push(cv)[k] == acc[k]);
                }
                assert forall|j: int|
                    0 <= j < params.len() implies spec_parse_param(match_id, lk, params[j]) == Ok::<
                    ConfigValue,
                    ValueError,
                >(spec_parse_values(match_id, params, lk, acc)->Ok_0[acc.len() + j]) by {
                    if j == 0 {
                        assert(rest->Ok_0[acc.len() as int] == acc.push(cv)[acc.len() as int]);
                        assert(acc.push(cv)[acc.len() as int] == cv);
                    } else {
                        assert(params.drop_first()[j - 1] == params[j]);
                        assert(spec_parse_param(match_id, lk, params.drop_first()[j - 1]) == Ok::<
                            ConfigValue,
                            ValueError,
                        >(rest->Ok_0[acc.push(cv).len() + (j - 1)]));
                    }
                }
            },
            Err(e) => {
                assert(false);
            },
        }
    }
}

/// All-or-nothing: a batch that parses yields exactly one typed value per
/// parameter, in order; a batch that fails yields nothing at all, the
/// result being a single error.
pub proof fn theorem_parse_all_or_nothing(match_id: i32, params: Seq<RawParam>, lk: Seq<AttrMeta>)
    requires
        spec_parse_config_values(match_id, params, lk) is Ok,
    ensures
        spec_parse_config_values(match_id, params, lk)->Ok_0.len() == params.len(),
        forall|j: int|
            0 <= j < params.len() ==> spec_parse_param(match_id, lk, params[j]) == Ok::<
                ConfigValue,
                ValueError,
            >(spec_parse_config_values(match_id, params, lk)->Ok_0[j]),
{
    lemma_parse_values_ok_shape(match_id, params, lk, Seq::empty());
}

/// A parameter fold that succeeds resolved every key.
pub proof fn lemma_parse_values_ok_keys(
    match_id: i32,
    params: Seq<RawParam>,
    lk: Seq<AttrMeta>,
    acc: Seq<ConfigValue>,
)
    requires
        spec_parse_values(match_id, params, lk, acc) is Ok,
    ensures
        forall|k: int| 0 <= k < params.len() ==> lookup_meta(lk, params[k].key@) is Some,
    decreases params.len(),
{
    if params.len() == 0 {
    } else {
        match spec_parse_param(match_id, lk, params[0]) {
            Ok(cv) => {
                lemma_parse_values_ok_keys(match_id, params.drop_first(), lk, acc.push(cv));
                assert forall|k: int|
                    0 <= k < params.len() implies lookup_meta(lk, params[k].key@) is Some by {
                    if k >= 1 {
                        assert(params.drop_first()[k - 1] == params[k]);
                    }
                }
            },
            Err(e) => {
                assert(false);
            },
        }
    }
}

/// Unknown key: a batch holding a parameter whose key the schema does not
/// resolve fails, whatever that parameter's declared type or value.
pub proof fn theorem_unknown_attribute(match_id: i32, params: Seq<RawParam>, lk: Seq<AttrMeta>)
    requires
        exists|k: int| 0 <= k < params.len() && lookup_meta(lk, params[k].key@) is None,
    ensures
        spec_parse_config_values(match_id, params, lk) is Err,
{
    if spec_parse_config_values(match_id, params, lk) is Ok {
        lemma_parse_values_ok_keys(match_id, params, lk, Seq::empty());
        let k = choose|k: int| 0 <= k < params.len() && lookup_meta(lk, params[k].key@) is None;
        assert(lookup_meta(lk, params[k].key@) is Some);
    }
}

/// Unknown key, with the exact report: when the parameters before parameter
/// `k` parse cleanly and parameter `k`'s key does not resolve, the batch
/// fails with `UnknownAttribute` naming that key.
pub proof fn theorem_unknown_attribute_reported(
    match_id: i32,
    params: Seq<RawParam>,
    lk: Seq<AttrMeta>,
    k: int,
)
    requires
        0 <= k < params.len(),
        lookup_meta(lk, params[k].key@) is None,
        spec_parse_values(match_id, params.take(k), lk, Seq::empty()) is Ok,
    ensures
        spec_parse_config_values(match_id, params, lk) == Err::<Seq<ConfigValue>, ValueError>(
            ValueError::UnknownAttribute { key: params[k].key },
        ),
{
    assert(params =~= params.take(k) + params.skip(k));
    lemma_parse_values_concat(match_id, params.take(k), params.skip(k), lk, Seq::empty());
    assert(params.skip(k)[0] == params[k]);
}


/// Under valid ranks and flags, the only error a row fold can stop with is
/// `DuplicateKey`.
pub proof fn lemma_m2t_attrs_err_dup(
    cvid: i32,
    rank: i32,
    attrs: Seq<crate::attrs::AttrFlag>,
    m: Seq<AttrIdName>,
    acc: Seq<ConfigPrecedenceRule>,
)
    requires
        forall|j: int|
            0 <= j < attrs.len() && lookup_id(m, attrs[j].name@) is Some ==> attrs[j].flag <= 1,
    ensures
        m2t_attrs(cvid, rank, attrs, m, acc) is Ok || m2t_attrs(
            cvid,
            rank,
            attrs,
            m,
            acc,
        )->Err_0 is DuplicateKey,
    decreases attrs.len(),
{
    if attrs.len() == 0 {
    } else {
        let a = attrs[0];
        assert forall|j: int|
            0 <= j < attrs.drop_first().len() && lookup_id(
                m,
                attrs.drop_first()[j].name@,
            ) is Some implies attrs.drop_first()[j].flag <= 1 by {
            assert(attrs.drop_first()[j] == attrs[j + 1]);
        }
        match lookup_id(m, a.name@) {
            None => {
                lemma_m2t_attrs_err_dup(cvid, rank, attrs.drop_first(), m, acc);
            },
            Some(id) => {
                assert(a.flag <= 1);
                if !crate::to_tall::tall_has_pair(acc, rank, id) {
                    lemma_m2t_attrs_err_dup(
                        cvid,
                        rank,
                        attrs.drop_first(),
                        m,
                        acc.push(
                            ConfigPrecedenceRule {
                                config_version_id: cvid,
                                rank,
                                attr_id: id,
                                match_type: a.flag,
                            },
                        ),
                    );
                }
            },
        }
    }
}

/// Under valid ranks and flags, the only error a matrix fold can stop with
/// is `DuplicateKey`.
pub proof fn lemma_m2t_rows_err_dup(
    cvid: i32,
    rows: Seq<MatrixRow>,
    m: Seq<AttrIdName>,
    acc: Seq<ConfigPrecedenceRule>,
)
    requires
        forall|i: int| 0 <= i < rows.len() ==> rows[i].rank >= 1,
        forall|i: int, j: int|
            0 <= i < rows.len() && 0 <= j < rows[i].attrs@.len() && lookup_id(
                m,
                rows[i].attrs@[j].name@,
            ) is Some ==> rows[i].attrs@[j].flag <= 1,
    ensures
        m2t_rows(cvid, rows, m, acc) is Ok || m2t_rows(cvid, rows, m, acc)->Err_0 is DuplicateKey,
    decreases rows.len(),
{
    if rows.len() == 0 {
    } else {
        assert forall|j: int|
            0 <= j < rows[0].attrs@.len() && lookup_id(
                m,
                rows[0].attrs@[j].name@,
            ) is Some implies rows[0].attrs@[j].flag <= 1 by {}
        lemma_m2t_attrs_err_dup(cvid, rows[0].rank, rows[0].attrs@, m, acc);
        assert forall|i: int| 0 <= i < rows.drop_first().len() implies rows.drop_first()[i].rank
            >= 1 by {
            assert(rows.drop_first()[i] == rows[i + 1]);
        }
        assert forall|i: int, j: int|
            0 <= i < rows.drop_first().len() && 0 <= j < rows.drop_first()[i].attrs@.len()
                && lookup_id(m, rows.drop_first()[i].attrs@[j].name@) is Some implies rows.drop_first()[i].attrs@[j].flag
            <= 1 by {
            assert(rows.drop_first()[i] == rows[i + 1]);
        }
        match m2t_attrs(cvid, rows[0].rank, rows[0].attrs@, m, acc) {
            Ok(acc2) => {
                lemma_m2t_rows_err_dup(cvid, rows.drop_first(), m, acc2);
            },
            Err(e) => {},
        }
    }
}

/// Uniqueness, matrix side: a matrix with valid ranks and flags whose
/// resolvable cells repeat a `(rank, attr_id)` pair fails, and the error is
/// a `DuplicateKey`.
pub proof fn theorem_matrix_uniqueness(rows: Seq<MatrixRow>, cvid: i32, m: Seq<AttrIdName>)
    requires
        forall|i: int| 0 <= i < rows.len() ==> rows[i].rank >= 1,
        forall|i: int, j: int|
            0 <= i < rows.len() && 0 <= j < rows[i].attrs@.len() && lookup_id(
                m,
                rows[i].attrs@[j].name@,
            ) is Some ==> rows[i].attrs@[j].flag <= 1,
        !crate::round_trip::pairs_distinct(crate::round_trip::matrix_rules(cvid, rows, m)),
    ensures
        spec_matrix_to_tall(rows, cvid, m) is Err,
        spec_matrix_to_tall(rows, cvid, m)->Err_0 is DuplicateKey,
{
    if m2t_rows(cvid, rows, m, Seq::empty()) is Ok {
        crate::round_trip::lemma_m2t_rows_ok_shape(cvid, rows, m, Seq::empty());
        assert(Seq::empty() + crate::round_trip::matrix_rules(cvid, rows, m)
            =~= crate::round_trip::matrix_rules(cvid, rows, m));
        crate::round_trip::lemma_m2t_rows_ok_distinct(cvid, rows, m, Seq::empty());
        assert(false);
    }
    lemma_m2t_rows_err_dup(cvid, rows, m, Seq::empty());
}

/// A grouped fold that succeeds never held one of its resolvable
/// `(rank, name)` pairs in its starting groups.
pub proof fn lemma_t2m_fold_ok_fresh(
    rules: Seq<ConfigPrecedenceRule>,
    inv: Seq<AttrIdName>,
    g: Seq<(i32, Seq<(Seq<char>, u8)>)>,
)
    requires
        t2m_fold(rules, inv, g) is Ok,
    ensures
        forall|k: int|
            0 <= k < rules.len() && lookup_name(inv, (#[trigger] rules[k]).attr_id) is Some
                ==> !crate::to_matrix::groups_have(
                g,
                rules[k].rank,
                lookup_name(inv, rules[k].attr_id)->Some_0,
            ),
    decreases rules.len(),
{
    if rules.len() == 0 {
    } else {
        let r0 = rules[0];
        let rest = rules.drop_first();
        if r0.rank > 0 && r0.match_type <= 1 {
            match lookup_name(inv, r0.attr_id) {
                None => {
                    lemma_t2m_fold_ok_fresh(rest, inv, g);
                    assert forall|k: int|
                        0 <= k < rules.len() && lookup_name(
                            inv,
                            (#[trigger] rules[k]).attr_id,
                        ) is Some implies !crate::to_matrix::groups_have(
                        g,
                        rules[k].rank,
                        lookup_name(inv, rules[k].attr_id)->Some_0,
                    ) by {
                        if k >= 1 {
                            assert(rest[k - 1] == rules[k]);
                        }
                    }
                },
                Some(n0) => {
                    let g2 = crate::to_matrix::insert_rule_grouped(g, r0.rank, n0, r0.match_type);
                    lemma_t2m_fold_ok_fresh(rest, inv, g2);
                    assert forall|k: int|
                        0 <= k < rules.len() && lookup_name(
                            inv,
                            (#[trigger] rules[k]).attr_id,
                        ) is Some implies !crate::to_matrix::groups_have(
                        g,
                        rules[k].rank,
                        lookup_name(inv, rules[k].attr_id)->Some_0,
                    ) by {
                        if k >= 1 {
                            assert(rest[k - 1] == rules[k]);
                            let nk = lookup_name(inv, rules[k].attr_id)->Some_0;
                            crate::round_trip::lemma_insert_rule_have(
                                g,
                                r0.rank,
                                n0,
                                r0.match_type,
                                rules[k].rank,
                                nk,
                            );
                        }
                    }
                },
            }
        }
    }
}

/// A grouped fold that succeeds saw no repeated `(rank, name)` pair among
/// its resolvable rules.
pub proof fn lemma_t2m_fold_ok_distinct(
    rules: Seq<ConfigPrecedenceRule>,
    inv: Seq<AttrIdName>,
    g: Seq<(i32, Seq<(Seq<char>, u8)>)>,
)
    requires
        t2m_fold(rules, inv, g) is Ok,
    ensures
        forall|k1: int, k2: int|
            0 <= k1 < k2 < rules.len() && lookup_name(inv, (#[trigger] rules[k1]).attr_id) is Some
                && lookup_name(inv, (#[trigger] rules[k2]).attr_id) is Some ==> !(rules[k1].rank
                == rules[k2].rank && lookup_name(inv, rules[k1].attr_id) == lookup_name(
                inv,
                rules[k2].attr_id,
            )),
    decreases rules.len(),
{
    if rules.len() == 0 {
    } else {
        let r0 = rules[0];
        let rest = rules.drop_first();
        if r0.rank > 0 && r0.match_type <= 1 {
            match lookup_name(inv, r0.attr_id) {
                None => {
                    lemma_t2m_fold_ok_distinct(rest, inv, g);
                    assert forall|k1: int, k2: int|
                        0 <= k1 < k2 < rules.len() && lookup_name(
                            inv,
                            (#[trigger] rules[k1]).attr_id,
                        ) is Some && lookup_name(inv, (#[trigger] rules[k2]).attr_id) is Some
                        implies !(rules[k1].rank == rules[k2].rank && lookup_name(
                        inv,
                        rules[k1].attr_id,
                    ) == lookup_name(inv, rules[k2].attr_id)) by {
                        if k1 >= 1 {
                            assert(rest[k1 - 1] == rules[k1]);
                            assert(rest[k2 - 1] == rules[k2]);
                        }
                    }
                },
                Some(n0) => {
                    let g2 = crate::to_matrix::insert_rule_grouped(g, r0.rank, n0, r0.match_type);
                    lemma_t2m_fold_ok_distinct(rest, inv, g2);
                    lemma_t2m_fold_ok_fresh(rest, inv, g2);
                    assert forall|k1: int, k2: int|
                        0 <= k1 < k2 < rules.len() && lookup_name(
                            inv,
                            (#[trigger] rules[k1]).attr_id,
                        ) is Some && lookup_name(inv, (#[trigger] rules[k2]).attr_id) is Some
                        implies !(rules[k1].rank == rules[k2].rank && lookup_name(
                        inv,
                        rules[k1].attr_id,
                    ) == lookup_name(inv, rules[k2].attr_id)) by {
                        if k1 >= 1 {
                            assert(rest[k1 - 1] == rules[k1]);
                            assert(rest[k2 - 1] == rules[k2]);
                        } else {
                            assert(rest[k2 - 1] == rules[k2]);
                            let nk = lookup_name(inv, rules[k2].attr_id)->Some_0;
                            crate::round_trip::lemma_insert_rule_have(
                                g,
                                r0.rank,
                                n0,
                                r0.match_type,
                                rules[k2].rank,
                                nk,
                            );
                            if rules[0].rank == rules[k2].rank && lookup_name(
                                inv,
                                rules[0].attr_id,
                            ) == lookup_name(inv, rules[k2].attr_id) {
                                assert(nk == n0);
                                assert(crate::to_matrix::groups_have(g2, rules[k2].rank, nk));
                                assert(false);
                            }
                        }
                    }
                },
            }
        }
    }
}

/// Under valid ranks and flags, the only error a grouped fold can stop with
/// is `DuplicateKey`.
pub proof fn lemma_t2m_fold_err_dup(
    rules: Seq<ConfigPrecedenceRule>,
    inv: Seq<AttrIdName>,
    g: Seq<(i32, Seq<(Seq<char>, u8)>)>,
)
    requires
        forall|k: int| 0 <= k < rules.len() ==> (#[trigger] rules[k]).rank >= 1,
        forall|k: int| 0 <= k < rules.len() ==> (#[trigger] rules[k]).match_type <= 1,
    ensures
        t2m_fold(rules, inv, g) is Ok || t2m_fold(rules, inv, g)->Err_0 is DuplicateKey,
    decreases rules.len(),
{
    if rules.len() == 0 {
    } else {
        let r0 = rules[0];
        let rest = rules.drop_first();
        assert forall|k: int| 0 <= k < rest.len() implies (#[trigger] rest[k]).rank >= 1
            && rest[k].match_type <= 1 by {
            assert(rest[k] == rules[k + 1]);
        }
        match lookup_name(inv, r0.attr_id) {
            None => {
                lemma_t2m_fold_err_dup(rest, inv, g);
            },
            Some(n0) => {
                if !crate::to_matrix::groups_have(g, r0.rank, n0) {
                    lemma_t2m_fold_err_dup(
                        rest,
                        inv,
                        crate::to_matrix::insert_rule_grouped(g, r0.rank, n0, r0.match_type),
                    );
                }
            },
        }
    }
}

/// Uniqueness, tall side: a rule set with valid ranks and flags holding two
/// resolvable rules that collide on `(rank, name)` fails, and the error is a
/// `DuplicateKey`.
pub proof fn theorem_tall_uniqueness(rules: Seq<ConfigPrecedenceRule>, inv: Seq<AttrIdName>)
    requires
        forall|k: int| 0 <= k < rules.len() ==> (#[trigger] rules[k]).rank >= 1,
        forall|k: int| 0 <= k < rules.len() ==> (#[trigger] rules[k]).match_type <= 1,
        exists|k1: int, k2: int|
            0 <= k1 < k2 < rules.len() && lookup_name(inv, (#[trigger] rules[k1]).attr_id) is Some
                && lookup_name(inv, (#[trigger] rules[k2]).attr_id) is Some && rules[k1].rank
                == rules[k2].rank && lookup_name(inv, rules[k1].attr_id) == lookup_name(
                inv,
                rules[k2].attr_id,
            ),
    ensures
        spec_tall_to_matrix(rules, inv) is Err,
        spec_tall_to_matrix(rules, inv)->Err_0 is DuplicateKey,
{
    if t2m_fold(rules, inv, Seq::empty()) is Ok {
        lemma_t2m_fold_ok_distinct(rules, inv, Seq::empty());
        let (k1, k2) = choose|k1: int, k2: int|
            0 <= k1 < k2 < rules.len() && lookup_name(inv, (#[trigger] rules[k1]).attr_id) is Some
                && lookup_name(inv, (#[trigger] rules[k2]).attr_id) is Some && rules[k1].rank
                == rules[k2].rank && lookup_name(inv, rules[k1].attr_id) == lookup_name(
                inv,
                rules[k2].attr_id,
            );
        assert(false);
    }
    lemma_t2m_fold_err_dup(rules, inv, Seq::empty());
}


/// Determinism of the backward conversion: the matrix it yields is grouped
/// by rank in ascending order, and the cells of each row stand in ascending
/// lexicographic name order.
pub proof fn theorem_tall_to_matrix_ordered(rules: Seq<ConfigPrecedenceRule>, inv: Seq<AttrIdName>)
    requires
        spec_tall_to_matrix(rules, inv) is Ok,
    ensures
        crate::to_matrix::matrix_ordered(spec_tall_to_matrix(rules, inv)->Ok_0),
{
    crate::to_matrix::lemma_t2m_fold_ordered(
        rules,
        inv,
        Seq::<(i32, Seq<(Seq<char>, u8)>)>::empty(),
    );
}

} // verus!
