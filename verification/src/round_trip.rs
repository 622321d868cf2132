use vstd::prelude::*;

use crate::attrs::{lex_lt, lookup_id, lookup_name, AttrFlag, AttrIdName, MatrixRow};
use crate::to_matrix::{attrs_have, groups_have, insert_attr_sorted, insert_rule_grouped};
use crate::to_tall::{m2t_attrs, m2t_rows, tall_has_pair};
use crate::ConfigPrecedenceRule;

verus! {

/// The rules one matrix row contributes: one per resolvable attribute cell,
/// in cell order.
pub open spec fn row_rules(
    cvid: i32,
    rank: i32,
    attrs: Seq<AttrFlag>,
    m: Seq<AttrIdName>,
) -> Seq<ConfigPrecedenceRule>
    decreases attrs.len(),
{
    if attrs.len() == 0 {
        Seq::empty()
    } else {
        let rest = row_rules(cvid, rank, attrs.drop_first(), m);
        match lookup_id(m, attrs[0].name@) {
            None => rest,
            Some(id) => seq![
                ConfigPrecedenceRule {
                    config_version_id: cvid,
                    rank,
                    attr_id: id,
                    match_type: attrs[0].flag,
                },
            ] + rest,
        }
    }
}

/// The rules a whole matrix contributes, row by row.
pub open spec fn matrix_rules(
    cvid: i32,
    rows: Seq<MatrixRow>,
    m: Seq<AttrIdName>,
) -> Seq<ConfigPrecedenceRule>
    decreases rows.len(),
{
    if rows.len() == 0 {
        Seq::empty()
    } else {
        row_rules(cvid, rows[0].rank, rows[0].attrs@, m) + matrix_rules(cvid, rows.drop_first(), m)
    }
}

/// Whether some attribute name resolves to this rule's id: the rule's id
/// lies in the range of the name table.
pub open spec fn rule_resolvable(m: Seq<AttrIdName>, r: ConfigPrecedenceRule) -> bool {
    exists|name: Seq<char>| lookup_id(m, name) == Some(r.attr_id)
}

/// No two rules of `t` share a `(rank, attr_id)` pair.
pub open spec fn pairs_distinct(t: Seq<ConfigPrecedenceRule>) -> bool {
    forall|k1: int, k2: int|
        0 <= k1 < k2 < t.len() ==> !(t[k1].rank == t[k2].rank && t[k1].attr_id == t[k2].attr_id)
}

/// A row fold that succeeds appends exactly the row's resolvable cells to
/// its accumulator.
pub proof fn lemma_m2t_attrs_ok_shape(
    cvid: i32,
    rank: i32,
    attrs: Seq<AttrFlag>,
    m: Seq<AttrIdName>,
    acc: Seq<ConfigPrecedenceRule>,
)
    requires
        m2t_attrs(cvid, rank, attrs, m, acc) is Ok,
    ensures
        m2t_attrs(cvid, rank, attrs, m, acc)->Ok_0 == acc + row_rules(cvid, rank, attrs, m),
    decreases attrs.len(),
{
    if attrs.len() == 0 {
        assert(acc + row_rules(cvid, rank, attrs, m) =~= acc);
    } else {
        let a = attrs[0];
        match lookup_id(m, a.name@) {
            None => {
                lemma_m2t_attrs_ok_shape(cvid, rank, attrs.drop_first(), m, acc);
            },
            Some(id) => {
                let rule = ConfigPrecedenceRule {
                    config_version_id: cvid,
                    rank,
                    attr_id: id,
                    match_type: a.flag,
                };
                lemma_m2t_attrs_ok_shape(cvid, rank, attrs.drop_first(), m, acc.push(rule));
                assert(acc.push(rule) + row_rules(cvid, rank, attrs.drop_first(), m) =~= acc + (
                seq![rule] + row_rules(cvid, rank, attrs.drop_first(), m)));
            },
        }
    }
}

/// A matrix fold that succeeds appends exactly the matrix's resolvable
/// cells to its accumulator, in traversal order.
pub proof fn lemma_m2t_rows_ok_shape(
    cvid: i32,
    rows: Seq<MatrixRow>,
    m: Seq<AttrIdName>,
    acc: Seq<ConfigPrecedenceRule>,
)
    requires
        m2t_rows(cvid, rows, m, acc) is Ok,
    ensures
        m2t_rows(cvid, rows, m, acc)->Ok_0 == acc + matrix_rules(cvid, rows, m),
    decreases rows.len(),
{
    if rows.len() == 0 {
        assert(acc + matrix_rules(cvid, rows, m) =~= acc);
    } else {
        match m2t_attrs(cvid, rows[0].rank, rows[0].attrs@, m, acc) {
            Ok(acc2) => {
                lemma_m2t_attrs_ok_shape(cvid, rows[0].rank, rows[0].attrs@, m, acc);
                lemma_m2t_rows_ok_shape(cvid, rows.drop_first(), m, acc2);
                assert((acc + row_rules(cvid, rows[0].rank, rows[0].attrs@, m)) + matrix_rules(
                    cvid,
                    rows.drop_first(),
                    m,
                ) =~= acc + (row_rules(cvid, rows[0].rank, rows[0].attrs@, m) + matrix_rules(
                    cvid,
                    rows.drop_first(),
                    m,
                )));
            },
            Err(e) => {
                assert(false);
            },
        }
    }
}

/// Every rule a row contributes carries the row's rank, the conversion's
/// version id, a flag the row held, and an id some name resolves to.
pub proof fn lemma_row_rules_elements(
    cvid: i32,
    rank: i32,
    attrs: Seq<AttrFlag>,
    m: Seq<AttrIdName>,
)
    requires
        forall|j: int|
            0 <= j < attrs.len() && lookup_id(m, attrs[j].name@) is Some ==> attrs[j].flag <= 1,
    ensures
        forall|k: int|
            0 <= k < row_rules(cvid, rank, attrs, m).len() ==> {
                let r = #[trigger] row_rules(cvid, rank, attrs, m)[k];
                r.config_version_id == cvid && r.rank == rank && r.match_type <= 1
                    && rule_resolvable(m, r)
            },
    decreases attrs.len(),
{
    if attrs.len() == 0 {
    } else {
        let a = attrs[0];
        assert forall|j: int|
            0 <= j < attrs.drop_first().len() && lookup_id(
                m,
                attrs.drop_first()[j].name@,
            ) is Some implies attrs.drop_first()[j].flag <= 1 by {
            assert(attrs.drop_first()[j] == attrs[j + 1]);
        }
        lemma_row_rules_elements(cvid, rank, attrs.drop_first(), m);
        let rest = row_rules(cvid, rank, attrs.drop_first(), m);
        match lookup_id(m, a.name@) {
            None => {},
            Some(id) => {
                let rule = ConfigPrecedenceRule {
                    config_version_id: cvid,
                    rank,
                    attr_id: id,
                    match_type: a.flag,
                };
                assert(lookup_id(m, a.name@) == Some(rule.attr_id));
                assert(rule_resolvable(m, rule));
                assert forall|k: int|
                    0 <= k < row_rules(cvid, rank, attrs, m).len() implies {
                    let r = #[trigger] row_rules(cvid, rank, attrs, m)[k];
                    r.config_version_id == cvid && r.rank == rank && r.match_type <= 1
                        && rule_resolvable(m, r)
                } by {
                    if k >= 1 {
                        assert(row_rules(cvid, rank, attrs, m)[k] == rest[k - 1]);
                    } else {
                        assert(row_rules(cvid, rank, attrs, m)[0] == rule);
                    }
                }
            },
        }
    }
}

/// Every rule a matrix contributes is valid (rank at least 1, flag in
/// {0, 1}), carries the version id, and has a resolvable id.
pub proof fn lemma_matrix_rules_elements(cvid: i32, rows: Seq<MatrixRow>, m: Seq<AttrIdName>)
    requires
        forall|i: int| 0 <= i < rows.len() ==> rows[i].rank >= 1,
        forall|i: int, j: int|
            0 <= i < rows.len() && 0 <= j < rows[i].attrs@.len() && lookup_id(
                m,
                rows[i].attrs@[j].name@,
            ) is Some ==> rows[i].attrs@[j].flag <= 1,
    ensures
        forall|k: int|
            0 <= k < matrix_rules(cvid, rows, m).len() ==> {
                let r = #[trigger] matrix_rules(cvid, rows, m)[k];
                r.config_version_id == cvid && r.rank >= 1 && r.match_type <= 1 && rule_resolvable(
                    m,
                    r,
                )
            },
    decreases rows.len(),
{
    if rows.len() == 0 {
    } else {
        lemma_row_rules_elements(cvid, rows[0].rank, rows[0].attrs@, m);
        assert forall|i: int, j: int|
            0 <= i < rows.drop_first().len() && 0 <= j < rows.drop_first()[i].attrs@.len()
                && lookup_id(m, rows.drop_first()[i].attrs@[j].name@) is Some implies rows.drop_first()[i].attrs@[j].flag
            <= 1 by {
            assert(rows.drop_first()[i] == rows[i + 1]);
        }
        assert forall|i: int| 0 <= i < rows.drop_first().len() implies rows.drop_first()[i].rank
            >= 1 by {
            assert(rows.drop_first()[i] == rows[i + 1]);
        }
        lemma_matrix_rules_elements(cvid, rows.drop_first(), m);
        let head = row_rules(cvid, rows[0].rank, rows[0].attrs@, m);
        let rest = matrix_rules(cvid, rows.drop_first(), m);
        assert forall|k: int|
            0 <= k < matrix_rules(cvid, rows, m).len() implies {
            let r = #[trigger] matrix_rules(cvid, rows, m)[k];
            r.config_version_id == cvid && r.rank >= 1 && r.match_type <= 1 && rule_resolvable(
                m,
                r,
            )
        } by {
            if k < head.len() {
                assert(matrix_rules(cvid, rows, m)[k] == head[k]);
            } else {
                assert(matrix_rules(cvid, rows, m)[k] == rest[k - head.len()]);
            }
        }
    }
}

/// A row fold that succeeds keeps the `(rank, attr_id)` pairs of its result
/// pairwise distinct, provided the accumulator's already were.
pub proof fn lemma_m2t_attrs_ok_distinct(
    cvid: i32,
    rank: i32,
    attrs: Seq<AttrFlag>,
    m: Seq<AttrIdName>,
    acc: Seq<ConfigPrecedenceRule>,
)
    requires
        m2t_attrs(cvid, rank, attrs, m, acc) is Ok,
        pairs_distinct(acc),
    ensures
        pairs_distinct(m2t_attrs(cvid, rank, attrs, m, acc)->Ok_0),
    decreases attrs.len(),
{
    if attrs.len() == 0 {
    } else {
        let a = attrs[0];
        match lookup_id(m, a.name@) {
            None => {
                lemma_m2t_attrs_ok_distinct(cvid, rank, attrs.drop_first(), m, acc);
            },
            Some(id) => {
                let rule = ConfigPrecedenceRule {
                    config_version_id: cvid,
                    rank,
                    attr_id: id,
                    match_type: a.flag,
                };
                assert(!tall_has_pair(acc, rank, id));
                assert forall|k1: int, k2: int|
                    0 <= k1 < k2 < acc.push(rule).len() implies !(acc.push(rule)[k1].rank == acc.push(
                    rule,
                )[k2].rank && acc.push(rule)[k1].attr_id == acc.push(rule)[k2].attr_id) by {
                    if k2 == acc.len() {
                        assert(acc.push(rule)[k1] == acc[k1]);
                        assert(!(acc[k1].rank == rank && acc[k1].attr_id == id));
                    } else {
                        assert(acc.push(rule)[k1] == acc[k1]);
                        assert(acc.push(rule)[k2] == acc[k2]);
                    }
                }
                lemma_m2t_attrs_ok_distinct(cvid, rank, attrs.drop_first(), m, acc.push(rule));
            },
        }
    }
}

/// A matrix fold that succeeds keeps its result's pairs pairwise distinct.
pub proof fn lemma_m2t_rows_ok_distinct(
    cvid: i32,
    rows: Seq<MatrixRow>,
    m: Seq<AttrIdName>,
    acc: Seq<ConfigPrecedenceRule>,
)
    requires
        m2t_rows(cvid, rows, m, acc) is Ok,
        pairs_distinct(acc),
    ensures
        pairs_distinct(m2t_rows(cvid, rows, m, acc)->Ok_0),
    decreases rows.len(),
{
    if rows.len() == 0 {
    } else {
        match m2t_attrs(cvid, rows[0].rank, rows[0].attrs@, m, acc) {
            Ok(acc2) => {
                lemma_m2t_attrs_ok_distinct(cvid, rows[0].rank, rows[0].attrs@, m, acc);
                lemma_m2t_rows_ok_distinct(cvid, rows.drop_first(), m, acc2);
            },
            Err(e) => {
                assert(false);
            },
        }
    }
}


/// Whether the id->name table inverts the name->id table on every
/// resolvable name.
pub open spec fn tables_coherent(m: Seq<AttrIdName>, inv: Seq<AttrIdName>) -> bool {
    forall|name: Seq<char>|
        (#[trigger] lookup_id(m, name)) is Some ==> lookup_name(inv, lookup_id(m, name)->Some_0)
            == Some(name)
}

/// The `(rank, name) -> flag` content a rule set denotes under an id->name
/// table, overlaid on `acc` in rule order; unresolvable ids contribute
/// nothing.
pub open spec fn rules_content(
    rules: Seq<ConfigPrecedenceRule>,
    inv: Seq<AttrIdName>,
    acc: Map<(i32, Seq<char>), u8>,
) -> Map<(i32, Seq<char>), u8>
    decreases rules.len(),
{
    if rules.len() == 0 {
        acc
    } else {
        let acc2 = match lookup_name(inv, rules[0].attr_id) {
            None => acc,
            Some(n) => acc.insert((rules[0].rank, n), rules[0].match_type),
        };
        rules_content(rules.drop_first(), inv, acc2)
    }
}

/// The content one matrix row denotes: its resolvable cells, keyed by
/// `(rank, name)`, overlaid on `acc` in cell order.
pub open spec fn row_content(
    rank: i32,
    attrs: Seq<AttrFlag>,
    m: Seq<AttrIdName>,
    acc: Map<(i32, Seq<char>), u8>,
) -> Map<(i32, Seq<char>), u8>
    decreases attrs.len(),
{
    if attrs.len() == 0 {
        acc
    } else {
        let acc2 = if lookup_id(m, attrs[0].name@) is Some {
            acc.insert((rank, attrs[0].name@), attrs[0].flag)
        } else {
            acc
        };
        row_content(rank, attrs.drop_first(), m, acc2)
    }
}

/// The content a whole matrix denotes, row by row.
pub open spec fn matrix_content(
    rows: Seq<MatrixRow>,
    m: Seq<AttrIdName>,
    acc: Map<(i32, Seq<char>), u8>,
) -> Map<(i32, Seq<char>), u8>
    decreases rows.len(),
{
    if rows.len() == 0 {
        acc
    } else {
        matrix_content(
            rows.drop_first(),
            m,
            row_content(rows[0].rank, rows[0].attrs@, m, acc),
        )
    }
}

/// Splitting a rule sequence splits its content fold.
pub proof fn lemma_rules_content_concat(
    s1: Seq<ConfigPrecedenceRule>,
    s2: Seq<ConfigPrecedenceRule>,
    inv: Seq<AttrIdName>,
    acc: Map<(i32, Seq<char>), u8>,
)
    ensures
        rules_content(s1 + s2, inv, acc) == rules_content(s2, inv, rules_content(s1, inv, acc)),
    decreases s1.len(),
{
    if s1.len() == 0 {
        assert(s1 + s2 =~= s2);
    } else {
        assert((s1 + s2)[0] == s1[0]);
        assert((s1 + s2).drop_first() =~= s1.drop_first() + s2);
        match lookup_name(inv, s1[0].attr_id) {
            None => {
                lemma_rules_content_concat(s1.drop_first(), s2, inv, acc);
            },
            Some(n) => {
                lemma_rules_content_concat(
                    s1.drop_first(),
                    s2,
                    inv,
                    acc.insert((s1[0].rank, n), s1[0].match_type),
                );
            },
        }
    }
}

/// Under coherent tables, the content of the rules a row contributes is the
/// row's own content.
pub proof fn lemma_row_rules_content(
    cvid: i32,
    rank: i32,
    attrs: Seq<AttrFlag>,
    m: Seq<AttrIdName>,
    inv: Seq<AttrIdName>,
    acc: Map<(i32, Seq<char>), u8>,
)
    requires
        tables_coherent(m, inv),
    ensures
        rules_content(row_rules(cvid, rank, attrs, m), inv, acc) == row_content(
            rank,
            attrs,
            m,
            acc,
        ),
    decreases attrs.len(),
{
    if attrs.len() == 0 {
    } else {
        let a = attrs[0];
        let rest = row_rules(cvid, rank, attrs.drop_first(), m);
        match lookup_id(m, a.name@) {
            None => {
                lemma_row_rules_content(cvid, rank, attrs.drop_first(), m, inv, acc);
            },
            Some(id) => {
                let rule = ConfigPrecedenceRule {
                    config_version_id: cvid,
                    rank,
                    attr_id: id,
                    match_type: a.flag,
                };
                assert(lookup_name(inv, id) == Some(a.name@));
                lemma_rules_content_concat(seq![rule], rest, inv, acc);
                assert(seq![rule][0] == rule);
                assert(seq![rule].drop_first() =~= Seq::<ConfigPrecedenceRule>::empty());
                let acc2 = acc.insert((rank, a.name@), a.flag);
                assert(rules_content(Seq::<ConfigPrecedenceRule>::empty(), inv, acc2) == acc2);
                assert(rules_content(seq![rule], inv, acc) == acc2);
                lemma_row_rules_content(cvid, rank, attrs.drop_first(), m, inv, acc2);
            },
        }
    }
}

/// Under coherent tables, the content of the rules a matrix contributes is
/// the matrix's own content.
pub proof fn lemma_matrix_rules_content(
    cvid: i32,
    rows: Seq<MatrixRow>,
    m: Seq<AttrIdName>,
    inv: Seq<AttrIdName>,
    acc: Map<(i32, Seq<char>), u8>,
)
    requires
        tables_coherent(m, inv),
    ensures
        rules_content(matrix_rules(cvid, rows, m), inv, acc) == matrix_content(rows, m, acc),
    decreases rows.len(),
{
    if rows.len() == 0 {
    } else {
        let head = row_rules(cvid, rows[0].rank, rows[0].attrs@, m);
        let rest = matrix_rules(cvid, rows.drop_first(), m);
        lemma_rules_content_concat(head, rest, inv, acc);
        lemma_row_rules_content(cvid, rows[0].rank, rows[0].attrs@, m, inv, acc);
        lemma_matrix_rules_content(
            cvid,
            rows.drop_first(),
            m,
            inv,
            row_content(rows[0].rank, rows[0].attrs@, m, acc),
        );
    }
}


/// The `(rank, name) -> flag` content of one group's cells, overlaid on
/// `acc` in cell order.
pub open spec fn cells_content(
    rank: i32,
    cells: Seq<(Seq<char>, u8)>,
    acc: Map<(i32, Seq<char>), u8>,
) -> Map<(i32, Seq<char>), u8>
    decreases cells.len(),
{
    if cells.len() == 0 {
        acc
    } else {
        cells_content(rank, cells.drop_first(), acc.insert((rank, cells[0].0), cells[0].1))
    }
}

/// The content of a grouped matrix, group by group.
pub open spec fn groups_content(
    groups: Seq<(i32, Seq<(Seq<char>, u8)>)>,
    acc: Map<(i32, Seq<char>), u8>,
) -> Map<(i32, Seq<char>), u8>
    decreases groups.len(),
{
    if groups.len() == 0 {
        acc
    } else {
        groups_content(groups.drop_first(), cells_content(groups[0].0, groups[0].1, acc))
    }
}

/// A cell list headed by `x` holds a name exactly when `x` carries it or the
/// tail does.
pub proof fn lemma_attrs_have_cons(x: (Seq<char>, u8), rest: Seq<(Seq<char>, u8)>, n: Seq<char>)
    ensures
        attrs_have(seq![x] + rest, n) == (x.0 == n || attrs_have(rest, n)),
{
    let s = seq![x] + rest;
    if attrs_have(s, n) {
        let j = choose|j: int| 0 <= j < s.len() && s[j].0 == n;
        if j >= 1 {
            assert(rest[j - 1] == s[j]);
        }
    }
    if x.0 == n {
        assert(s[0].0 == n);
    }
    if attrs_have(rest, n) {
        let j = choose|j: int| 0 <= j < rest.len() && rest[j].0 == n;
        assert(s[j + 1] == rest[j]);
    }
}

/// A group list headed by `x` holds a `(rank, name)` cell exactly when `x`
/// does or the tail does.
pub proof fn lemma_groups_have_cons(
    x: (i32, Seq<(Seq<char>, u8)>),
    rest: Seq<(i32, Seq<(Seq<char>, u8)>)>,
    r: i32,
    n: Seq<char>,
)
    ensures
        groups_have(seq![x] + rest, r, n) == ((x.0 == r && attrs_have(x.1, n)) || groups_have(
            rest,
            r,
            n,
        )),
{
    let s = seq![x] + rest;
    if groups_have(s, r, n) {
        let k = choose|k: int| 0 <= k < s.len() && s[k].0 == r && attrs_have(s[k].1, n);
        if k >= 1 {
            assert(rest[k - 1] == s[k]);
        }
    }
    if x.0 == r && attrs_have(x.1, n) {
        assert(s[0] == x);
    }
    if groups_have(rest, r, n) {
        let k = choose|k: int| 0 <= k < rest.len() && rest[k].0 == r && attrs_have(rest[k].1, n);
        assert(s[k + 1] == rest[k]);
    }
}

/// The sorted cell insert adds exactly one name to the names held.
pub proof fn lemma_insert_attr_have(
    cells: Seq<(Seq<char>, u8)>,
    name: Seq<char>,
    flag: u8,
    n2: Seq<char>,
)
    ensures
        attrs_have(insert_attr_sorted(cells, name, flag), n2) == (attrs_have(cells, n2) || n2
            == name),
    decreases cells.len(),
{
    if cells.len() == 0 {
        lemma_attrs_have_cons((name, flag), Seq::empty(), n2);
        assert(seq![(name, flag)] + Seq::<(Seq<char>, u8)>::empty() =~= seq![(name, flag)]);
        if attrs_have(cells, n2) {
            let j = choose|j: int| 0 <= j < cells.len() && cells[j].0 == n2;
            assert(false);
        }
    } else if lex_lt(name, cells[0].0) {
        lemma_attrs_have_cons((name, flag), cells, n2);
    } else {
        lemma_insert_attr_have(cells.drop_first(), name, flag, n2);
        lemma_attrs_have_cons(cells[0], insert_attr_sorted(cells.drop_first(), name, flag), n2);
        lemma_attrs_have_cons(cells[0], cells.drop_first(), n2);
        assert(seq![cells[0]] + cells.drop_first() =~= cells);
    }
}

/// The grouped insert adds exactly one `(rank, name)` cell to those held.
pub proof fn lemma_insert_rule_have(
    groups: Seq<(i32, Seq<(Seq<char>, u8)>)>,
    rank: i32,
    name: Seq<char>,
    flag: u8,
    r2: i32,
    n2: Seq<char>,
)
    ensures
        groups_have(insert_rule_grouped(groups, rank, name, flag), r2, n2) == (groups_have(
            groups,
            r2,
            n2,
        ) || (r2 == rank && n2 == name)),
    decreases groups.len(),
{
    let cell = seq![(name, flag)];
    if groups.len() == 0 {
        lemma_groups_have_cons((rank, cell), Seq::empty(), r2, n2);
        assert(seq![(rank, cell)] + Seq::<(i32, Seq<(Seq<char>, u8)>)>::empty() =~= seq![
            (rank, cell),
        ]);
        assert(attrs_have(cell, n2) == (n2 == name)) by {
            if attrs_have(cell, n2) {
                let j = choose|j: int| 0 <= j < cell.len() && cell[j].0 == n2;
            }
            if n2 == name {
                assert(cell[0].0 == n2);
            }
        }
        if groups_have(groups, r2, n2) {
            let k = choose|k: int|
                0 <= k < groups.len() && groups[k].0 == r2 && attrs_have(groups[k].1, n2);
            assert(false);
        }
    } else if rank < groups[0].0 {
        lemma_groups_have_cons((rank, cell), groups, r2, n2);
        assert(attrs_have(cell, n2) == (n2 == name)) by {
            if attrs_have(cell, n2) {
                let j = choose|j: int| 0 <= j < cell.len() && cell[j].0 == n2;
            }
            if n2 == name {
                assert(cell[0].0 == n2);
            }
        }
    } else if rank == groups[0].0 {
        lemma_insert_attr_have(groups[0].1, name, flag, n2);
        lemma_groups_have_cons(
            (groups[0].0, insert_attr_sorted(groups[0].1, name, flag)),
            groups.drop_first(),
            r2,
            n2,
        );
        lemma_groups_have_cons(groups[0], groups.drop_first(), r2, n2);
        assert(seq![groups[0]] + groups.drop_first() =~= groups);
    } else {
        lemma_insert_rule_have(groups.drop_first(), rank, name, flag, r2, n2);
        lemma_groups_have_cons(
            groups[0],
            insert_rule_grouped(groups.drop_first(), rank, name, flag),
            r2,
            n2,
        );
        lemma_groups_have_cons(groups[0], groups.drop_first(), r2, n2);
        assert(seq![groups[0]] + groups.drop_first() =~= groups);
    }
}

/// An insert of a key no cell of the list carries commutes with the list's
/// content fold.
pub proof fn lemma_cells_content_insert_commute(
    rank: i32,
    cells: Seq<(Seq<char>, u8)>,
    acc: Map<(i32, Seq<char>), u8>,
    key: (i32, Seq<char>),
    v: u8,
)
    requires
        forall|j: int| 0 <= j < cells.len() ==> !(rank == key.0 && (#[trigger] cells[j]).0 == key.1),
    ensures
        cells_content(rank, cells, acc.insert(key, v)) == cells_content(rank, cells, acc).insert(
            key,
            v,
        ),
    decreases cells.len(),
{
    if cells.len() == 0 {
    } else {
        let k0 = (rank, cells[0].0);
        assert(k0 != key);
        assert(acc.insert(key, v).insert(k0, cells[0].1) =~= acc.insert(k0, cells[0].1).insert(
            key,
            v,
        ));
        assert forall|j: int|
            0 <= j < cells.drop_first().len() implies !(rank == key.0 && (#[trigger] cells.drop_first()[j]).0
            == key.1) by {
            assert(cells.drop_first()[j] == cells[j + 1]);
        }
        lemma_cells_content_insert_commute(
            rank,
            cells.drop_first(),
            acc.insert(k0, cells[0].1),
            key,
            v,
        );
    }
}

/// An insert of a `(rank, name)` key no group carries commutes with the
/// grouped content fold.
pub proof fn lemma_groups_content_insert_commute(
    groups: Seq<(i32, Seq<(Seq<char>, u8)>)>,
    acc: Map<(i32, Seq<char>), u8>,
    key: (i32, Seq<char>),
    v: u8,
)
    requires
        !groups_have(groups, key.0, key.1),
    ensures
        groups_content(groups, acc.insert(key, v)) == groups_content(groups, acc).insert(key, v),
    decreases groups.len(),
{
    if groups.len() == 0 {
    } else {
        assert(!(groups[0].0 == key.0 && attrs_have(groups[0].1, key.1)));
        assert forall|j: int|
            0 <= j < groups[0].1.len() implies !(groups[0].0 == key.0 && (#[trigger] groups[0].1[j]).0
            == key.1) by {
            if groups[0].0 == key.0 && groups[0].1[j].0 == key.1 {
                assert(attrs_have(groups[0].1, key.1));
            }
        }
        lemma_cells_content_insert_commute(groups[0].0, groups[0].1, acc, key, v);
        assert(!groups_have(groups.drop_first(), key.0, key.1)) by {
            if groups_have(groups.drop_first(), key.0, key.1) {
                let k = choose|k: int|
                    0 <= k < groups.drop_first().len() && groups.drop_first()[k].0 == key.0
                        && attrs_have(groups.drop_first()[k].1, key.1);
                assert(groups[k + 1] == groups.drop_first()[k]);
            }
        }
        lemma_groups_content_insert_commute(
            groups.drop_first(),
            cells_content(groups[0].0, groups[0].1, acc),
            key,
            v,
        );
    }
}


/// Inserting a fresh cell into a group's cells adds exactly its key to the
/// cells' content.
pub proof fn lemma_insert_attr_content(
    rank: i32,
    cells: Seq<(Seq<char>, u8)>,
    name: Seq<char>,
    flag: u8,
    acc: Map<(i32, Seq<char>), u8>,
)
    requires
        !attrs_have(cells, name),
    ensures
        cells_content(rank, insert_attr_sorted(cells, name, flag), acc) == cells_content(
            rank,
            cells,
            acc,
        ).insert((rank, name), flag),
    decreases cells.len(),
{
    let key = (rank, name);
    if cells.len() == 0 {
        assert(seq![(name, flag)].drop_first() =~= Seq::<(Seq<char>, u8)>::empty());
        assert(seq![(name, flag)][0] == (name, flag));
        assert(cells_content(rank, Seq::<(Seq<char>, u8)>::empty(), acc.insert(key, flag))
            == acc.insert(key, flag));
    } else if lex_lt(name, cells[0].0) {
        let ins = seq![(name, flag)] + cells;
        assert(ins[0] == (name, flag));
        assert(ins.drop_first() =~= cells);
        assert forall|j: int|
            0 <= j < cells.len() implies !(rank == key.0 && (#[trigger] cells[j]).0 == key.1) by {
            if cells[j].0 == name {
                assert(attrs_have(cells, name));
            }
        }
        lemma_cells_content_insert_commute(rank, cells, acc, key, flag);
    } else {
        let ins = seq![cells[0]] + insert_attr_sorted(cells.drop_first(), name, flag);
        assert(ins[0] == cells[0]);
        assert(ins.drop_first() =~= insert_attr_sorted(cells.drop_first(), name, flag));
        assert(!attrs_have(cells.drop_first(), name)) by {
            if attrs_have(cells.drop_first(), name) {
                let j = choose|j: int|
                    0 <= j < cells.drop_first().len() && cells.drop_first()[j].0 == name;
                assert(cells[j + 1] == cells.drop_first()[j]);
                assert(attrs_have(cells, name));
            }
        }
        lemma_insert_attr_content(
            rank,
            cells.drop_first(),
            name,
            flag,
            acc.insert((rank, cells[0].0), cells[0].1),
        );
    }
}

/// Inserting a fresh rule into the grouped matrix adds exactly its
/// `(rank, name)` key to the grouped content.
pub proof fn lemma_insert_rule_content(
    groups: Seq<(i32, Seq<(Seq<char>, u8)>)>,
    rank: i32,
    name: Seq<char>,
    flag: u8,
    acc: Map<(i32, Seq<char>), u8>,
)
    requires
        !groups_have(groups, rank, name),
    ensures
        groups_content(insert_rule_grouped(groups, rank, name, flag), acc) == groups_content(
            groups,
            acc,
        ).insert((rank, name), flag),
    decreases groups.len(),
{
    let key = (rank, name);
    let cell = seq![(name, flag)];
    if groups.len() == 0 {
        assert(seq![(rank, cell)].drop_first() =~= Seq::<(i32, Seq<(Seq<char>, u8)>)>::empty());
        assert(seq![(rank, cell)][0] == (rank, cell));
        assert(cell[0] == (name, flag));
        assert(cell.drop_first() =~= Seq::<(Seq<char>, u8)>::empty());
        assert(cells_content(rank, Seq::<(Seq<char>, u8)>::empty(), acc.insert(key, flag))
            == acc.insert(key, flag));
        assert(cells_content(rank, cell, acc) == acc.insert(key, flag));
        assert(insert_rule_grouped(groups, rank, name, flag) == seq![(rank, cell)]);
        assert(groups_content(
            Seq::<(i32, Seq<(Seq<char>, u8)>)>::empty(),
            acc.insert(key, flag),
        ) == acc.insert(key, flag));
        assert(groups_content(seq![(rank, cell)], acc) == acc.insert(key, flag));
    } else if rank < groups[0].0 {
        let ins = seq![(rank, cell)] + groups;
        assert(ins[0] == (rank, cell));
        assert(ins.drop_first() =~= groups);
        assert(cell[0] == (name, flag));
        assert(cell.drop_first() =~= Seq::<(Seq<char>, u8)>::empty());
        assert(cells_content(rank, Seq::<(Seq<char>, u8)>::empty(), acc.insert(key, flag))
            == acc.insert(key, flag));
        assert(cells_content(rank, cell, acc) == acc.insert(key, flag));
        lemma_groups_content_insert_commute(groups, acc, key, flag);
        assert(insert_rule_grouped(groups, rank, name, flag) == ins);
        assert(groups_content(ins, acc) == groups_content(groups, cells_content(rank, cell, acc)));
    } else if rank == groups[0].0 {
        let ncells = insert_attr_sorted(groups[0].1, name, flag);
        let ins = seq![(groups[0].0, ncells)] + groups.drop_first();
        assert(ins[0] == (groups[0].0, ncells));
        assert(ins.drop_first() =~= groups.drop_first());
        assert(!attrs_have(groups[0].1, name)) by {
            if attrs_have(groups[0].1, name) {
                assert(groups[0].0 == rank && attrs_have(groups[0].1, name));
                assert(groups_have(groups, rank, name));
            }
        }
        lemma_insert_attr_content(rank, groups[0].1, name, flag, acc);
        assert(!groups_have(groups.drop_first(), rank, name)) by {
            if groups_have(groups.drop_first(), rank, name) {
                let k = choose|k: int|
                    0 <= k < groups.drop_first().len() && groups.drop_first()[k].0 == rank
                        && attrs_have(groups.drop_first()[k].1, name);
                assert(groups[k + 1] == groups.drop_first()[k]);
                assert(groups_have(groups, rank, name));
            }
        }
        lemma_groups_content_insert_commute(
            groups.drop_first(),
            cells_content(groups[0].0, groups[0].1, acc),
            key,
            flag,
        );
        assert(insert_rule_grouped(groups, rank, name, flag) == ins);
        assert(groups_content(ins, acc) == groups_content(
            groups.drop_first(),
            cells_content(groups[0].0, ncells, acc),
        ));
        assert(cells_content(groups[0].0, ncells, acc) == cells_content(
            groups[0].0,
            groups[0].1,
            acc,
        ).insert(key, flag));
        assert(groups_content(groups, acc) == groups_content(
            groups.drop_first(),
            cells_content(groups[0].0, groups[0].1, acc),
        ));
    } else {
        let ins = seq![groups[0]] + insert_rule_grouped(groups.drop_first(), rank, name, flag);
        assert(ins[0] == groups[0]);
        assert(ins.drop_first() =~= insert_rule_grouped(groups.drop_first(), rank, name, flag));
        assert(!groups_have(groups.drop_first(), rank, name)) by {
            if groups_have(groups.drop_first(), rank, name) {
                let k = choose|k: int|
                    0 <= k < groups.drop_first().len() && groups.drop_first()[k].0 == rank
                        && attrs_have(groups.drop_first()[k].1, name);
                assert(groups[k + 1] == groups.drop_first()[k]);
                assert(groups_have(groups, rank, name));
            }
        }
        lemma_insert_rule_content(
            groups.drop_first(),
            rank,
            name,
            flag,
            cells_content(groups[0].0, groups[0].1, acc),
        );
        assert(insert_rule_grouped(groups, rank, name, flag) == ins);
        assert(groups_content(ins, acc) == groups_content(
            insert_rule_grouped(groups.drop_first(), rank, name, flag),
            cells_content(groups[0].0, groups[0].1, acc),
        ));
        assert(groups_content(groups, acc) == groups_content(
            groups.drop_first(),
            cells_content(groups[0].0, groups[0].1, acc),
        ));
    }
}

/// The grouped insert never shrinks the group list and leaves it nonempty.
pub proof fn lemma_insert_rule_len(
    groups: Seq<(i32, Seq<(Seq<char>, u8)>)>,
    rank: i32,
    name: Seq<char>,
    flag: u8,
)
    ensures
        insert_rule_grouped(groups, rank, name, flag).len() >= groups.len(),
        insert_rule_grouped(groups, rank, name, flag).len() >= 1,
    decreases groups.len(),
{
    if groups.len() == 0 {
    } else if rank < groups[0].0 {
    } else if rank == groups[0].0 {
    } else {
        lemma_insert_rule_len(groups.drop_first(), rank, name, flag);
    }
}


/// A rule set whose rules are valid, resolvable and pairwise distinct by
/// `(rank, name)`, and disjoint from the groups built so far, folds through
/// the grouped conversion without error; the grouped content is then the
/// rule set's content over the groups' own.
pub proof fn lemma_t2m_fold_runs(
    rules: Seq<ConfigPrecedenceRule>,
    inv: Seq<AttrIdName>,
    g: Seq<(i32, Seq<(Seq<char>, u8)>)>,
)
    requires
        forall|k: int| 0 <= k < rules.len() ==> (#[trigger] rules[k]).rank >= 1,
        forall|k: int| 0 <= k < rules.len() ==> (#[trigger] rules[k]).match_type <= 1,
        forall|k: int|
            0 <= k < rules.len() ==> lookup_name(inv, (#[trigger] rules[k]).attr_id) is Some,
        forall|k1: int, k2: int|
            0 <= k1 < k2 < rules.len() ==> !((#[trigger] rules[k1]).rank
                == (#[trigger] rules[k2]).rank && lookup_name(inv, rules[k1].attr_id)
                == lookup_name(inv, rules[k2].attr_id)),
        forall|k: int|
            0 <= k < rules.len() ==> !groups_have(
                g,
                (#[trigger] rules[k]).rank,
                lookup_name(inv, rules[k].attr_id)->Some_0,
            ),
    ensures
        crate::to_matrix::t2m_fold(rules, inv, g) is Ok,
        groups_content(crate::to_matrix::t2m_fold(rules, inv, g)->Ok_0, Map::empty())
            == rules_content(rules, inv, groups_content(g, Map::empty())),
        crate::to_matrix::t2m_fold(rules, inv, g)->Ok_0.len() >= g.len(),
        rules.len() > 0 ==> crate::to_matrix::t2m_fold(rules, inv, g)->Ok_0.len() >= 1,
    decreases rules.len(),
{
    if rules.len() == 0 {
    } else {
        let r0 = rules[0];
        assert(r0.rank >= 1);
        assert(r0.match_type <= 1);
        assert(lookup_name(inv, r0.attr_id) is Some);
        let n0 = lookup_name(inv, r0.attr_id)->Some_0;
        assert(lookup_name(inv, r0.attr_id) == Some(n0));
        assert(!groups_have(g, r0.rank, n0));
        let g2 = insert_rule_grouped(g, r0.rank, n0, r0.match_type);
        lemma_insert_rule_content(g, r0.rank, n0, r0.match_type, Map::empty());
        lemma_insert_rule_len(g, r0.rank, n0, r0.match_type);
        let rest = rules.drop_first();
        assert forall|k: int| 0 <= k < rest.len() implies (#[trigger] rest[k]).rank >= 1
            && rest[k].match_type <= 1 && lookup_name(inv, rest[k].attr_id) is Some by {
            assert(rest[k] == rules[k + 1]);
        }
        assert forall|k1: int, k2: int|
            0 <= k1 < k2 < rest.len() implies !((#[trigger] rest[k1]).rank
            == (#[trigger] rest[k2]).rank && lookup_name(inv, rest[k1].attr_id) == lookup_name(
            inv,
            rest[k2].attr_id,
        )) by {
            assert(rest[k1] == rules[k1 + 1]);
            assert(rest[k2] == rules[k2 + 1]);
        }
        assert forall|k: int|
            0 <= k < rest.len() implies !groups_have(
            g2,
            (#[trigger] rest[k]).rank,
            lookup_name(inv, rest[k].attr_id)->Some_0,
        ) by {
            assert(rest[k] == rules[k + 1]);
            let nk = lookup_name(inv, rules[k + 1].attr_id)->Some_0;
            lemma_insert_rule_have(g, r0.rank, n0, r0.match_type, rules[k + 1].rank, nk);
            assert(!groups_have(g, rules[k + 1].rank, nk));
            if rules[k + 1].rank == r0.rank && nk == n0 {
                assert(lookup_name(inv, rules[k + 1].attr_id) == Some(nk));
                assert(lookup_name(inv, r0.attr_id) == lookup_name(inv, rules[k + 1].attr_id));
                assert(false);
            }
        }
        lemma_t2m_fold_runs(rest, inv, g2);
    }
}

/// Round trip: a matrix that converts to a tall rule set converts back,
/// under an id->name table that inverts the name->id table, to matrix rows
/// holding exactly the matrix's own `rank -> {name: flag}` content — so the
/// content survives both directions, whatever order the rows and cells of
/// the original came in. The content covers every cell whose name the
/// name->id table resolves; when every name resolves, that is every cell.
pub proof fn theorem_round_trip(
    rows: Seq<MatrixRow>,
    cvid: i32,
    n2i: Seq<AttrIdName>,
    i2n: Seq<AttrIdName>,
    t: Seq<ConfigPrecedenceRule>,
)
    requires
        crate::to_tall::spec_matrix_to_tall(rows, cvid, n2i) == Ok::<
            Seq<ConfigPrecedenceRule>,
            crate::errors::PrecedenceError,
        >(t),
        tables_coherent(n2i, i2n),
    ensures
        crate::to_matrix::spec_tall_to_matrix(t, i2n) is Ok,
        groups_content(
            crate::to_matrix::spec_tall_to_matrix(t, i2n)->Ok_0,
            Map::empty(),
        ) == matrix_content(rows, n2i, Map::empty()),
{
    let fold = m2t_rows(cvid, rows, n2i, Seq::empty());
    assert(fold is Ok && fold->Ok_0 == t && t.len() > 0);
    lemma_m2t_rows_ok_shape(cvid, rows, n2i, Seq::empty());
    assert(Seq::empty() + matrix_rules(cvid, rows, n2i) =~= matrix_rules(cvid, rows, n2i));
    assert(t == matrix_rules(cvid, rows, n2i));
    crate::laws::lemma_m2t_rows_ok_ranks(cvid, rows, n2i, Seq::empty());
    crate::laws::lemma_m2t_rows_ok_flags(cvid, rows, n2i, Seq::empty());
    lemma_matrix_rules_elements(cvid, rows, n2i);
    lemma_m2t_rows_ok_distinct(cvid, rows, n2i, Seq::empty());
    assert(pairs_distinct(t));
    assert forall|k: int| 0 <= k < t.len() implies (#[trigger] t[k]).rank >= 1
        && t[k].match_type <= 1 && lookup_name(i2n, t[k].attr_id) is Some by {
        assert(matrix_rules(cvid, rows, n2i)[k] == t[k]);
        assert(rule_resolvable(n2i, t[k]));
        let name = choose|name: Seq<char>| lookup_id(n2i, name) == Some(t[k].attr_id);
        assert(lookup_name(i2n, t[k].attr_id) == Some(name));
    }
    assert forall|k1: int, k2: int|
        0 <= k1 < k2 < t.len() implies !((#[trigger] t[k1]).rank == (#[trigger] t[k2]).rank
        && lookup_name(i2n, t[k1].attr_id) == lookup_name(i2n, t[k2].attr_id)) by {
        if t[k1].rank == t[k2].rank && lookup_name(i2n, t[k1].attr_id) == lookup_name(
            i2n,
            t[k2].attr_id,
        ) {
            assert(matrix_rules(cvid, rows, n2i)[k1] == t[k1]);
            assert(matrix_rules(cvid, rows, n2i)[k2] == t[k2]);
            assert(rule_resolvable(n2i, t[k1]));
            assert(rule_resolvable(n2i, t[k2]));
            let name1 = choose|name1: Seq<char>| lookup_id(n2i, name1) == Some(t[k1].attr_id);
            let name2 = choose|name2: Seq<char>| lookup_id(n2i, name2) == Some(t[k2].attr_id);
            assert(lookup_name(i2n, t[k1].attr_id) == Some(name1));
            assert(lookup_name(i2n, t[k2].attr_id) == Some(name2));
            assert(name1 == name2);
            assert(t[k1].attr_id == t[k2].attr_id);
            assert(false);
        }
    }
    assert forall|k: int|
        0 <= k < t.len() implies !groups_have(
        Seq::<(i32, Seq<(Seq<char>, u8)>)>::empty(),
        (#[trigger] t[k]).rank,
        lookup_name(i2n, t[k].attr_id)->Some_0,
    ) by {
        if groups_have(
            Seq::<(i32, Seq<(Seq<char>, u8)>)>::empty(),
            t[k].rank,
            lookup_name(i2n, t[k].attr_id)->Some_0,
        ) {
            let j = choose|j: int|
                0 <= j < Seq::<(i32, Seq<(Seq<char>, u8)>)>::empty().len()
                    && Seq::<(i32, Seq<(Seq<char>, u8)>)>::empty()[j].0 == t[k].rank && attrs_have(
                    Seq::<(i32, Seq<(Seq<char>, u8)>)>::empty()[j].1,
                    lookup_name(i2n, t[k].attr_id)->Some_0,
                );
        }
    }
    lemma_t2m_fold_runs(t, i2n, Seq::empty());
    assert(groups_content(Seq::<(i32, Seq<(Seq<char>, u8)>)>::empty(), Map::empty())
        == Map::<(i32, Seq<char>), u8>::empty());
    lemma_matrix_rules_content(cvid, rows, n2i, i2n, Map::empty());
}

} // verus!
