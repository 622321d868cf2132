use vstd::prelude::*;

use crate::attrs::{lex_lt, lookup_name, AttrFlag, AttrIdName, MatrixRow};
use crate::errors::PrecedenceError;
use crate::ConfigPrecedenceRule;

verus! {

/// Abstract content of one matrix row's attribute cells: `(name, flag)`
/// pairs in layout order.
pub open spec fn attrs_content_view(attrs: Seq<AttrFlag>) -> Seq<(Seq<char>, u8)> {
    attrs.map_values(|a: AttrFlag| (a.name@, a.flag))
}

/// Abstract content of a matrix: `(rank, cells)` pairs in layout order.
pub open spec fn rows_content_view(rows: Seq<MatrixRow>) -> Seq<(i32, Seq<(Seq<char>, u8)>)> {
    rows.map_values(|r: MatrixRow| (r.rank, attrs_content_view(r.attrs@)))
}

/// Whether the cells `attrs` hold an entry for `name`.
pub open spec fn attrs_have(attrs: Seq<(Seq<char>, u8)>, name: Seq<char>) -> bool {
    exists|j: int| 0 <= j < attrs.len() && attrs[j].0 == name
}

/// Whether the grouped matrix `groups` holds an entry for `(rank, name)`.
pub open spec fn groups_have(
    groups: Seq<(i32, Seq<(Seq<char>, u8)>)>,
    rank: i32,
    name: Seq<char>,
) -> bool {
    exists|k: int| 0 <= k < groups.len() && groups[k].0 == rank && attrs_have(groups[k].1, name)
}

/// Inserts a cell into a row's cells, keeping names in ascending
/// lexicographic order.
pub open spec fn insert_attr_sorted(
    attrs: Seq<(Seq<char>, u8)>,
    name: Seq<char>,
    flag: u8,
) -> Seq<(Seq<char>, u8)>
    decreases attrs.len(),
{
    if attrs.len() == 0 {
        seq![(name, flag)]
    } else if lex_lt(name, attrs[0].0) {
        seq![(name, flag)] + attrs
    } else {
        seq![attrs[0]] + insert_attr_sorted(attrs.drop_first(), name, flag)
    }
}

/// Inserts one resolved rule into the grouped matrix, keeping ranks in
/// ascending order and opening a new group where the rank is not yet present.
pub open spec fn insert_rule_grouped(
    groups: Seq<(i32, Seq<(Seq<char>, u8)>)>,
    rank: i32,
    name: Seq<char>,
    flag: u8,
) -> Seq<(i32, Seq<(Seq<char>, u8)>)>
    decreases groups.len(),
{
    if groups.len() == 0 {
        seq![(rank, seq![(name, flag)])]
    } else if rank < groups[0].0 {
        seq![(rank, seq![(name, flag)])] + groups
    } else if rank == groups[0].0 {
        seq![(groups[0].0, insert_attr_sorted(groups[0].1, name, flag))] + groups.drop_first()
    } else {
        seq![groups[0]] + insert_rule_grouped(groups.drop_first(), rank, name, flag)
    }
}

/// Processes tall rules in order, building the grouped matrix: a rank below 1
/// or a flag outside {0, 1} stops the conversion, an unresolved attribute id
/// is skipped, and a repeated `(rank, name)` pair after resolution stops it
/// with `DuplicateKey`.
pub open spec fn t2m_fold(
    rules: Seq<ConfigPrecedenceRule>,
    m: Seq<AttrIdName>,
    groups: Seq<(i32, Seq<(Seq<char>, u8)>)>,
) -> Result<Seq<(i32, Seq<(Seq<char>, u8)>)>, PrecedenceError>
    decreases rules.len(),
{
    if rules.len() == 0 {
        Ok(groups)
    } else {
        let r = rules[0];
        if r.rank <= 0 {
            Err(PrecedenceError::InvalidRank { rank: r.rank })
        } else if r.match_type > 1 {
            Err(PrecedenceError::InvalidMatchType {
                rank: r.rank,
                attr_id: r.attr_id,
                match_type: r.match_type,
            })
        } else {
            match lookup_name(m, r.attr_id) {
                None => t2m_fold(rules.drop_first(), m, groups),
                Some(name) => {
                    if groups_have(groups, r.rank, name) {
                        Err(PrecedenceError::DuplicateKey { rank: r.rank, attr_id: r.attr_id })
                    } else {
                        t2m_fold(
                            rules.drop_first(),
                            m,
                            insert_rule_grouped(groups, r.rank, name, r.match_type),
                        )
                    }
                },
            }
        }
    }
}

/// The tall-to-matrix conversion on the abstract level: the fold over all
/// rules, with an empty outcome rejected as `EmptyResult`.
pub open spec fn spec_tall_to_matrix(
    rules: Seq<ConfigPrecedenceRule>,
    m: Seq<AttrIdName>,
) -> Result<Seq<(i32, Seq<(Seq<char>, u8)>)>, PrecedenceError> {
    match t2m_fold(rules, m, Seq::empty()) {
        Ok(g) => if g.len() == 0 {
            Err(PrecedenceError::EmptyResult)
        } else {
            Ok(g)
        },
        Err(e) => Err(e),
    }
}

/// Splitting the rule sequence splits the fold: the second part continues
/// from the first part's outcome.
pub proof fn lemma_t2m_fold_concat(
    s1: Seq<ConfigPrecedenceRule>,
    s2: Seq<ConfigPrecedenceRule>,
    m: Seq<AttrIdName>,
    groups: Seq<(i32, Seq<(Seq<char>, u8)>)>,
)
    ensures
        t2m_fold(s1 + s2, m, groups) == (match t2m_fold(s1, m, groups) {
            Ok(g) => t2m_fold(s2, m, g),
            Err(e) => Err::<Seq<(i32, Seq<(Seq<char>, u8)>)>, PrecedenceError>(e),
        }),
    decreases s1.len(),
{
    if s1.len() == 0 {
        assert(s1 + s2 =~= s2);
    } else {
        assert((s1 + s2)[0] == s1[0]);
        assert((s1 + s2).drop_first() =~= s1.drop_first() + s2);
        let r = s1[0];
        if r.rank > 0 && r.match_type <= 1 {
            match lookup_name(m, r.attr_id) {
                None => {
                    lemma_t2m_fold_concat(s1.drop_first(), s2, m, groups);
                },
                Some(name) => {
                    if !groups_have(groups, r.rank, name) {
                        lemma_t2m_fold_concat(
                            s1.drop_first(),
                            s2,
                            m,
                            insert_rule_grouped(groups, r.rank, name, r.match_type),
                        );
                    }
                },
            }
        }
    }
}

/// The recursive sorted insert equals inserting at the first position whose
/// cell name is lexicographically above the new name.
pub proof fn lemma_insert_attr_at(attrs: Seq<(Seq<char>, u8)>, name: Seq<char>, flag: u8, q: int)
    requires
        0 <= q <= attrs.len(),
        forall|j: int| 0 <= j < q ==> !lex_lt(name, attrs[j].0),
        q < attrs.len() ==> lex_lt(name, attrs[q].0),
    ensures
        insert_attr_sorted(attrs, name, flag) == attrs.insert(q, (name, flag)),
    decreases q,
{
    if q == 0 {
        if attrs.len() == 0 {
            assert(insert_attr_sorted(attrs, name, flag) =~= attrs.insert(0, (name, flag)));
        } else {
            assert(lex_lt(name, attrs[0].0));
            assert(seq![(name, flag)] + attrs =~= attrs.insert(0, (name, flag)));
        }
    } else {
        assert(!lex_lt(name, attrs[0].0));
        lemma_insert_attr_at(attrs.drop_first(), name, flag, q - 1);
        assert(seq![attrs[0]] + attrs.drop_first().insert(q - 1, (name, flag)) =~= attrs.insert(
            q,
            (name, flag),
        ));
    }
}

/// The recursive grouped insert, where the rank already has a group at
/// position `p`, equals updating that group's cells in place.
pub proof fn lemma_insert_rule_update(
    groups: Seq<(i32, Seq<(Seq<char>, u8)>)>,
    rank: i32,
    name: Seq<char>,
    flag: u8,
    p: int,
)
    requires
        0 <= p < groups.len(),
        forall|j: int| 0 <= j < p ==> groups[j].0 < rank,
        groups[p].0 == rank,
    ensures
        insert_rule_grouped(groups, rank, name, flag) == groups.update(
            p,
            (rank, insert_attr_sorted(groups[p].1, name, flag)),
        ),
    decreases p,
{
    if p == 0 {
        assert(seq![(groups[0].0, insert_attr_sorted(groups[0].1, name, flag))]
            + groups.drop_first() =~= groups.update(
            0,
            (rank, insert_attr_sorted(groups[0].1, name, flag)),
        ));
    } else {
        assert(groups[0].0 < rank);
        lemma_insert_rule_update(groups.drop_first(), rank, name, flag, p - 1);
        assert(groups.drop_first()[p - 1] == groups[p]);
        assert(seq![groups[0]] + groups.drop_first().update(
            p - 1,
            (rank, insert_attr_sorted(groups[p].1, name, flag)),
        ) =~= groups.update(p, (rank, insert_attr_sorted(groups[p].1, name, flag))));
    }
}

/// The recursive grouped insert, where the rank has no group yet, equals
/// inserting a fresh one-cell group at the first position whose rank is
/// above the new rank.
pub proof fn lemma_insert_rule_new(
    groups: Seq<(i32, Seq<(Seq<char>, u8)>)>,
    rank: i32,
    name: Seq<char>,
    flag: u8,
    p: int,
)
    requires
        0 <= p <= groups.len(),
        forall|j: int| 0 <= j < p ==> groups[j].0 < rank,
        p < groups.len() ==> groups[p].0 > rank,
    ensures
        insert_rule_grouped(groups, rank, name, flag) == groups.insert(
            p,
            (rank, seq![(name, flag)]),
        ),
    decreases p,
{
    if p == 0 {
        if groups.len() == 0 {
            assert(insert_rule_grouped(groups, rank, name, flag) =~= groups.insert(
                0,
                (rank, seq![(name, flag)]),
            ));
        } else {
            assert(rank < groups[0].0);
            assert(seq![(rank, seq![(name, flag)])] + groups =~= groups.insert(
                0,
                (rank, seq![(name, flag)]),
            ));
        }
    } else {
        assert(groups[0].0 < rank);
        lemma_insert_rule_new(groups.drop_first(), rank, name, flag, p - 1);
        assert(seq![groups[0]] + groups.drop_first().insert(p - 1, (rank, seq![(name, flag)]))
            =~= groups.insert(p, (rank, seq![(name, flag)])));
    }
}

/// Whether the matrix built so far holds a cell for `(rank, name)`.
#[verifier::loop_isolation(false)]
fn groups_contain(out: &Vec<MatrixRow>, rank: i32, name: &String) -> (r: bool)
    ensures
        r == groups_have(rows_content_view(out@), rank, name@),
{
    let ghost g = rows_content_view(out@);
    let mut k: usize = 0;
    while k < out.len()
        invariant
            0 <= k <= out@.len(),
            g == rows_content_view(out@),
            forall|k2: int| 0 <= k2 < k ==> !(g[k2].0 == rank && attrs_have(g[k2].1, name@)),
        decreases out@.len() - k,
    {
        if out[k].rank == rank {
            let attrs = &out[k].attrs;
            let ghost av = attrs_content_view(attrs@);
            let mut j: usize = 0;
            while j < attrs.len()
                invariant
                    0 <= j <= attrs@.len(),
                    av == attrs_content_view(attrs@),
                    forall|j2: int| 0 <= j2 < j ==> av[j2].0 != name@,
                decreases attrs@.len() - j,
            {
                if attrs[j].name == *name {
                    assert(av[j as int].0 == name@);
                    assert(attrs@ == out@[k as int].attrs@);
                    assert(g[k as int].1 == av);
                    assert(attrs_have(g[k as int].1, name@));
                    return true;
                }
                assert(av[j as int].0 == attrs@[j as int].name@);
                j = j + 1;
            }
            assert(!attrs_have(av, name@));
            assert(g[k as int] == (out@[k as int].rank, attrs_content_view(out@[k as int].attrs@)));
        } else {
            assert(g[k as int].0 == out@[k as int].rank);
        }
        k = k + 1;
    }
    assert(!groups_have(g, rank, name@));
    false
}

/// First position whose row rank is at or above `rank`.
fn find_rank_pos(out: &Vec<MatrixRow>, rank: i32) -> (p: usize)
    ensures
        0 <= p <= out@.len(),
        forall|j: int| 0 <= j < p ==> out@[j].rank < rank,
        p < out@.len() ==> out@[p as int].rank >= rank,
{
    let mut p: usize = 0;
    while p < out.len()
        invariant
            0 <= p <= out@.len(),
            forall|j: int| 0 <= j < p ==> out@[j].rank < rank,
        decreases out@.len() - p,
    {
        if out[p].rank >= rank {
            return p;
        }
        p = p + 1;
    }
    p
}

/// First position whose cell name is lexicographically above `name`.
fn find_attr_pos(attrs: &Vec<AttrFlag>, name: &String) -> (q: usize)
    ensures
        0 <= q <= attrs@.len(),
        forall|j: int| 0 <= j < q ==> !lex_lt(name@, attrs@[j].name@),
        q < attrs@.len() ==> lex_lt(name@, attrs@[q as int].name@),
{
    let mut q: usize = 0;
    while q < attrs.len()
        invariant
            0 <= q <= attrs@.len(),
            forall|j: int| 0 <= j < q ==> !lex_lt(name@, attrs@[j].name@),
        decreases attrs@.len() - q,
    {
        if crate::attrs::str_lex_lt(name.as_str(), attrs[q].name.as_str()) {
            return q;
        }
        q = q + 1;
    }
    q
}

/// Converts tall precedence rules back into matrix rows, grouping by rank in
/// ascending order and laying the cells of each row out in ascending
/// lexicographic name order.
///
/// A rank below 1 fails with `InvalidRank`; a flag outside {0, 1} fails with
/// `InvalidMatchType`; an attribute id absent from `attr_id_to_name` is
/// skipped; a repeated `(rank, name)` pair after resolution fails with
/// `DuplicateKey`; zero resulting rows fail with `EmptyResult`.
#[verifier::loop_isolation(false)]
pub fn tall_to_matrix_rows(
    tall: &Vec<ConfigPrecedenceRule>,
    attr_id_to_name: &Vec<AttrIdName>,
) -> (r: Result<Vec<MatrixRow>, PrecedenceError>)
    ensures
        (match r {
            Ok(rows) => spec_tall_to_matrix(tall@, attr_id_to_name@) == Ok::<
                Seq<(i32, Seq<(Seq<char>, u8)>)>,
                PrecedenceError,
            >(rows_content_view(rows@)),
            Err(e) => spec_tall_to_matrix(tall@, attr_id_to_name@) == Err::<
                Seq<(i32, Seq<(Seq<char>, u8)>)>,
                PrecedenceError,
            >(e),
        }),
{
    let ghost mv = attr_id_to_name@;
    let mut out: Vec<MatrixRow> = Vec::new();
    proof {
        assert(tall@.take(0) =~= Seq::<ConfigPrecedenceRule>::empty());
        assert(rows_content_view(out@) =~= Seq::<(i32, Seq<(Seq<char>, u8)>)>::empty());
    }
    let mut i: usize = 0;
    while i < tall.len()
        invariant
            0 <= i <= tall@.len(),
            t2m_fold(tall@.take(i as int), mv, Seq::empty()) == Ok::<
                Seq<(i32, Seq<(Seq<char>, u8)>)>,
                PrecedenceError,
            >(rows_content_view(out@)),
        decreases tall@.len() - i,
    {
        let r = &tall[i];
        let ghost gcur = rows_content_view(out@);
        proof {
            assert(*r == tall@[i as int]);
            assert(tall@ =~= tall@.take(i as int) + tall@.skip(i as int));
            lemma_t2m_fold_concat(tall@.take(i as int), tall@.skip(i as int), mv, Seq::empty());
            assert(tall@.skip(i as int)[0] == tall@[i as int]);
            assert(tall@.take(i as int + 1) =~= tall@.take(i as int) + seq![tall@[i as int]]);
            lemma_t2m_fold_concat(tall@.take(i as int), seq![tall@[i as int]], mv, Seq::empty());
            assert(seq![tall@[i as int]][0] == tall@[i as int]);
            assert(seq![tall@[i as int]].drop_first() =~= Seq::<ConfigPrecedenceRule>::empty());
        }
        if r.rank <= 0 {
            return Err(PrecedenceError::InvalidRank { rank: r.rank });
        }
        if r.match_type > 1 {
            return Err(
                PrecedenceError::InvalidMatchType {
                    rank: r.rank,
                    attr_id: r.attr_id,
                    match_type: r.match_type,
                },
            );
        }
        match crate::attrs::lookup_attr_name(attr_id_to_name, r.attr_id) {
            None => {
                proof {
                    assert(t2m_fold(Seq::<ConfigPrecedenceRule>::empty(), mv, gcur) == Ok::<
                        Seq<(i32, Seq<(Seq<char>, u8)>)>,
                        PrecedenceError,
                    >(gcur));
                    assert(t2m_fold(seq![tall@[i as int]], mv, gcur) == Ok::<
                        Seq<(i32, Seq<(Seq<char>, u8)>)>,
                        PrecedenceError,
                    >(gcur));
                }
            },
            Some(name) => {
                if groups_contain(&out, r.rank, name) {
                    return Err(PrecedenceError::DuplicateKey { rank: r.rank, attr_id: r.attr_id });
                }
                let ghost gnext = insert_rule_grouped(gcur, r.rank, name@, r.match_type);
                proof {
                    assert(t2m_fold(Seq::<ConfigPrecedenceRule>::empty(), mv, gnext) == Ok::<
                        Seq<(i32, Seq<(Seq<char>, u8)>)>,
                        PrecedenceError,
                    >(gnext));
                    assert(t2m_fold(seq![tall@[i as int]], mv, gcur) == Ok::<
                        Seq<(i32, Seq<(Seq<char>, u8)>)>,
                        PrecedenceError,
                    >(gnext));
                }
                let p = find_rank_pos(&out, r.rank);
                proof {
                    assert forall|j: int| 0 <= j < p implies gcur[j].0 == out@[j].rank by {
                        assert(gcur[j] == (out@[j].rank, attrs_content_view(out@[j].attrs@)));
                    }
                }
                if p < out.len() && out[p].rank == r.rank {
                    let ghost pre = out@;
                    let mut grow = out.remove(p);
                    let q = find_attr_pos(&grow.attrs, name);
                    let cell = AttrFlag { name: name.clone(), flag: r.match_type };
                    grow.attrs.insert(q, cell);
                    let ghost grow_v = grow;
                    out.insert(p, grow);
                    proof {
                        assert(grow_v.attrs@ == pre[p as int].attrs@.insert(
                            q as int,
                            AttrFlag { name: cell.name, flag: r.match_type },
                        ));
                        assert(out@ =~= pre.update(p as int, grow_v));
                        assert(gcur[p as int] == (pre[p as int].rank, attrs_content_view(
                            pre[p as int].attrs@,
                        )));
                        lemma_insert_attr_at(
                            attrs_content_view(pre[p as int].attrs@),
                            name@,
                            r.match_type,
                            q as int,
                        );
                        assert(attrs_content_view(grow_v.attrs@) =~= attrs_content_view(
                            pre[p as int].attrs@,
                        ).insert(q as int, (name@, r.match_type)));
                        lemma_insert_rule_update(gcur, r.rank, name@, r.match_type, p as int);
                        assert(rows_content_view(out@) =~= gcur.update(
                            p as int,
                            (r.rank, insert_attr_sorted(gcur[p as int].1, name@, r.match_type)),
                        ));
                    }
                } else {
                    let ghost pre = out@;
                    let mut av: Vec<AttrFlag> = Vec::new();
                    av.push(AttrFlag { name: name.clone(), flag: r.match_type });
                    let nrow = MatrixRow { rank: r.rank, attrs: av };
                    let ghost nrow_v = nrow;
                    out.insert(p, nrow);
                    proof {
                        assert(out@ == pre.insert(p as int, nrow_v));
                        lemma_insert_rule_new(gcur, r.rank, name@, r.match_type, p as int);
                        assert(attrs_content_view(nrow_v.attrs@) =~= seq![(name@, r.match_type)]);
                        assert(rows_content_view(out@) =~= gcur.insert(
                            p as int,
                            (r.rank, seq![(name@, r.match_type)]),
                        ));
                    }
                }
                proof {
                    assert(rows_content_view(out@) == gnext);
                }
            },
        }
        i = i + 1;
    }
    proof {
        assert(tall@.take(tall@.len() as int) =~= tall@);
    }
    if out.len() == 0 {
        return Err(PrecedenceError::EmptyResult);
    }
    proof {
        assert(rows_content_view(out@).len() == out@.len());
    }
    Ok(out)
}


/// Ranks strictly ascend across the groups of a grouped matrix.
pub open spec fn groups_sorted(groups: Seq<(i32, Seq<(Seq<char>, u8)>)>) -> bool {
    forall|a: int, b: int|
        0 <= a < b < groups.len() ==> (#[trigger] groups[a]).0 < (#[trigger] groups[b]).0
}

/// Cell names strictly ascend, lexicographically, within a group.
pub open spec fn cells_sorted(cells: Seq<(Seq<char>, u8)>) -> bool {
    forall|a: int, b: int|
        0 <= a < b < cells.len() ==> lex_lt((#[trigger] cells[a]).0, (#[trigger] cells[b]).0)
}

/// The grouped matrix is fully ordered: ascending ranks, and ascending
/// names within each rank.
pub open spec fn matrix_ordered(groups: Seq<(i32, Seq<(Seq<char>, u8)>)>) -> bool {
    groups_sorted(groups) && forall|k: int|
        0 <= k < groups.len() ==> cells_sorted((#[trigger] groups[k]).1)
}

/// Every cell of a sorted insert is the new cell or one of the old ones.
pub proof fn lemma_insert_attr_elements(cells: Seq<(Seq<char>, u8)>, name: Seq<char>, flag: u8)
    ensures
        insert_attr_sorted(cells, name, flag).len() == cells.len() + 1,
        forall|i: int|
            0 <= i < insert_attr_sorted(cells, name, flag).len() ==> ((#[trigger] insert_attr_sorted(
                cells,
                name,
                flag,
            )[i]) == (name, flag) || exists|j: int|
                0 <= j < cells.len() && insert_attr_sorted(cells, name, flag)[i] == cells[j]),
    decreases cells.len(),
{
    let ins = insert_attr_sorted(cells, name, flag);
    if cells.len() == 0 {
        assert(ins[0] == (name, flag));
    } else if lex_lt(name, cells[0].0) {
        assert forall|i: int|
            0 <= i < ins.len() implies ((#[trigger] ins[i]) == (name, flag) || exists|j: int|
            0 <= j < cells.len() && ins[i] == cells[j]) by {
            if i >= 1 {
                assert(ins[i] == cells[i - 1]);
            }
        }
    } else {
        lemma_insert_attr_elements(cells.drop_first(), name, flag);
        let rec = insert_attr_sorted(cells.drop_first(), name, flag);
        assert forall|i: int|
            0 <= i < ins.len() implies ((#[trigger] ins[i]) == (name, flag) || exists|j: int|
            0 <= j < cells.len() && ins[i] == cells[j]) by {
            if i == 0 {
                assert(ins[0] == cells[0]);
            } else {
                assert(ins[i] == rec[i - 1]);
                if rec[i - 1] != (name, flag) {
                    let j = choose|j: int|
                        0 <= j < cells.drop_first().len() && rec[i - 1] == cells.drop_first()[j];
                    assert(cells.drop_first()[j] == cells[j + 1]);
                }
            }
        }
    }
}

/// Inserting a fresh name into sorted cells keeps them sorted.
pub proof fn lemma_insert_attr_sorted_keeps(cells: Seq<(Seq<char>, u8)>, name: Seq<char>, flag: u8)
    requires
        cells_sorted(cells),
        !attrs_have(cells, name),
    ensures
        cells_sorted(insert_attr_sorted(cells, name, flag)),
    decreases cells.len(),
{
    let ins = insert_attr_sorted(cells, name, flag);
    if cells.len() == 0 {
    } else if lex_lt(name, cells[0].0) {
        assert forall|a: int, b: int|
            0 <= a < b < ins.len() implies lex_lt((#[trigger] ins[a]).0, (#[trigger] ins[b]).0) by {
            if a == 0 {
                assert(ins[b] == cells[b - 1]);
                if b - 1 > 0 {
                    crate::attrs::lemma_lex_lt_trans(name, cells[0].0, cells[b - 1].0);
                }
            } else {
                assert(ins[a] == cells[a - 1]);
                assert(ins[b] == cells[b - 1]);
            }
        }
    } else {
        assert(!attrs_have(cells.drop_first(), name)) by {
            if attrs_have(cells.drop_first(), name) {
                let j = choose|j: int|
                    0 <= j < cells.drop_first().len() && cells.drop_first()[j].0 == name;
                assert(cells[j + 1] == cells.drop_first()[j]);
                assert(attrs_have(cells, name));
            }
        }
        assert forall|a: int, b: int|
            0 <= a < b < cells.drop_first().len() implies lex_lt(
            (#[trigger] cells.drop_first()[a]).0,
            (#[trigger] cells.drop_first()[b]).0,
        ) by {
            assert(cells.drop_first()[a] == cells[a + 1]);
            assert(cells.drop_first()[b] == cells[b + 1]);
        }
        lemma_insert_attr_sorted_keeps(cells.drop_first(), name, flag);
        lemma_insert_attr_elements(cells.drop_first(), name, flag);
        let rec = insert_attr_sorted(cells.drop_first(), name, flag);
        assert(name != cells[0].0) by {
            if name == cells[0].0 {
                assert(attrs_have(cells, name));
            }
        }
        crate::attrs::lemma_lex_lt_total(name, cells[0].0);
        assert forall|a: int, b: int|
            0 <= a < b < ins.len() implies lex_lt((#[trigger] ins[a]).0, (#[trigger] ins[b]).0) by {
            if a == 0 {
                assert(ins[0] == cells[0]);
                assert(ins[b] == rec[b - 1]);
                if rec[b - 1] == (name, flag) {
                } else {
                    let j = choose|j: int|
                        0 <= j < cells.drop_first().len() && rec[b - 1] == cells.drop_first()[j];
                    assert(cells.drop_first()[j] == cells[j + 1]);
                }
            } else {
                assert(ins[a] == rec[a - 1]);
                assert(ins[b] == rec[b - 1]);
            }
        }
    }
}

/// Every group of a grouped insert carries the new rank or is one of the old
/// groups.
pub proof fn lemma_insert_rule_elements(
    groups: Seq<(i32, Seq<(Seq<char>, u8)>)>,
    rank: i32,
    name: Seq<char>,
    flag: u8,
)
    ensures
        forall|i: int|
            0 <= i < insert_rule_grouped(groups, rank, name, flag).len() ==> ((
            #[trigger] insert_rule_grouped(groups, rank, name, flag)[i]).0 == rank || exists|j: int|
                0 <= j < groups.len() && insert_rule_grouped(groups, rank, name, flag)[i]
                    == groups[j]),
    decreases groups.len(),
{
    let ins = insert_rule_grouped(groups, rank, name, flag);
    if groups.len() == 0 {
        assert(ins[0].0 == rank);
    } else if rank < groups[0].0 {
        assert forall|i: int|
            0 <= i < ins.len() implies ((#[trigger] ins[i]).0 == rank || exists|j: int|
            0 <= j < groups.len() && ins[i] == groups[j]) by {
            if i >= 1 {
                assert(ins[i] == groups[i - 1]);
            }
        }
    } else if rank == groups[0].0 {
        assert forall|i: int|
            0 <= i < ins.len() implies ((#[trigger] ins[i]).0 == rank || exists|j: int|
            0 <= j < groups.len() && ins[i] == groups[j]) by {
            if i == 0 {
                assert(ins[0].0 == rank);
            } else {
                assert(ins[i] == groups.drop_first()[i - 1]);
                assert(groups.drop_first()[i - 1] == groups[i]);
            }
        }
    } else {
        lemma_insert_rule_elements(groups.drop_first(), rank, name, flag);
        let rec = insert_rule_grouped(groups.drop_first(), rank, name, flag);
        assert forall|i: int|
            0 <= i < ins.len() implies ((#[trigger] ins[i]).0 == rank || exists|j: int|
            0 <= j < groups.len() && ins[i] == groups[j]) by {
            if i == 0 {
                assert(ins[0] == groups[0]);
            } else {
                assert(ins[i] == rec[i - 1]);
                if rec[i - 1].0 != rank {
                    let j = choose|j: int|
                        0 <= j < groups.drop_first().len() && rec[i - 1]
                            == groups.drop_first()[j];
                    assert(groups.drop_first()[j] == groups[j + 1]);
                }
            }
        }
    }
}

/// Inserting a fresh `(rank, name)` cell into an ordered grouped matrix
/// keeps it ordered.
pub proof fn lemma_insert_rule_ordered_keeps(
    groups: Seq<(i32, Seq<(Seq<char>, u8)>)>,
    rank: i32,
    name: Seq<char>,
    flag: u8,
)
    requires
        matrix_ordered(groups),
        !groups_have(groups, rank, name),
    ensures
        matrix_ordered(insert_rule_grouped(groups, rank, name, flag)),
    decreases groups.len(),
{
    let ins = insert_rule_grouped(groups, rank, name, flag);
    if groups.len() == 0 {
        assert(cells_sorted(ins[0].1));
    } else if rank < groups[0].0 {
        assert forall|a: int, b: int|
            0 <= a < b < ins.len() implies (#[trigger] ins[a]).0 < (#[trigger] ins[b]).0 by {
            if a == 0 {
                assert(ins[b] == groups[b - 1]);
            } else {
                assert(ins[a] == groups[a - 1]);
                assert(ins[b] == groups[b - 1]);
            }
        }
        assert forall|k: int| 0 <= k < ins.len() implies cells_sorted((#[trigger] ins[k]).1) by {
            if k >= 1 {
                assert(ins[k] == groups[k - 1]);
            }
        }
    } else if rank == groups[0].0 {
        assert(!attrs_have(groups[0].1, name)) by {
            if attrs_have(groups[0].1, name) {
                assert(groups_have(groups, rank, name));
            }
        }
        assert(cells_sorted(groups[0].1));
        lemma_insert_attr_sorted_keeps(groups[0].1, name, flag);
        assert forall|a: int, b: int|
            0 <= a < b < ins.len() implies (#[trigger] ins[a]).0 < (#[trigger] ins[b]).0 by {
            if a == 0 {
                assert(ins[b] == groups.drop_first()[b - 1]);
                assert(groups.drop_first()[b - 1] == groups[b]);
            } else {
                assert(ins[a] == groups[a]);
                assert(ins[b] == groups[b]);
            }
        }
        assert forall|k: int| 0 <= k < ins.len() implies cells_sorted((#[trigger] ins[k]).1) by {
            if k >= 1 {
                assert(ins[k] == groups[k]);
            }
        }
    } else {
        assert(!groups_have(groups.drop_first(), rank, name)) by {
            if groups_have(groups.drop_first(), rank, name) {
                let k = choose|k: int|
                    0 <= k < groups.drop_first().len() && groups.drop_first()[k].0 == rank
                        && attrs_have(groups.drop_first()[k].1, name);
                assert(groups[k + 1] == groups.drop_first()[k]);
                assert(groups_have(groups, rank, name));
            }
        }
        assert forall|a: int, b: int|
            0 <= a < b < groups.drop_first().len() implies (#[trigger] groups.drop_first()[a]).0
            < (#[trigger] groups.drop_first()[b]).0 by {
            assert(groups.drop_first()[a] == groups[a + 1]);
            assert(groups.drop_first()[b] == groups[b + 1]);
        }
        assert forall|k: int|
            0 <= k < groups.drop_first().len() implies cells_sorted(
            (#[trigger] groups.drop_first()[k]).1,
        ) by {
            assert(groups.drop_first()[k] == groups[k + 1]);
        }
        lemma_insert_rule_ordered_keeps(groups.drop_first(), rank, name, flag);
        lemma_insert_rule_elements(groups.drop_first(), rank, name, flag);
        let rec = insert_rule_grouped(groups.drop_first(), rank, name, flag);
        assert forall|a: int, b: int|
            0 <= a < b < ins.len() implies (#[trigger] ins[a]).0 < (#[trigger] ins[b]).0 by {
            if a == 0 {
                assert(ins[0] == groups[0]);
                assert(ins[b] == rec[b - 1]);
                if rec[b - 1].0 == rank {
                } else {
                    let j = choose|j: int|
                        0 <= j < groups.drop_first().len() && rec[b - 1]
                            == groups.drop_first()[j];
                    assert(groups.drop_first()[j] == groups[j + 1]);
                }
            } else {
                assert(ins[a] == rec[a - 1]);
                assert(ins[b] == rec[b - 1]);
            }
        }
        assert forall|k: int| 0 <= k < ins.len() implies cells_sorted((#[trigger] ins[k]).1) by {
            if k >= 1 {
                assert(ins[k] == rec[k - 1]);
            }
        }
    }
}

/// A grouped fold that starts from an ordered matrix ends in one.
pub proof fn lemma_t2m_fold_ordered(
    rules: Seq<ConfigPrecedenceRule>,
    inv: Seq<AttrIdName>,
    g: Seq<(i32, Seq<(Seq<char>, u8)>)>,
)
    requires
        matrix_ordered(g),
        t2m_fold(rules, inv, g) is Ok,
    ensures
        matrix_ordered(t2m_fold(rules, inv, g)->Ok_0),
    decreases rules.len(),
{
    if rules.len() == 0 {
    } else {
        let r = rules[0];
        if r.rank > 0 && r.match_type <= 1 {
            match lookup_name(inv, r.attr_id) {
                None => {
                    lemma_t2m_fold_ordered(rules.drop_first(), inv, g);
                },
                Some(name) => {
                    if !groups_have(g, r.rank, name) {
                        lemma_insert_rule_ordered_keeps(g, r.rank, name, r.match_type);
                        lemma_t2m_fold_ordered(
                            rules.drop_first(),
                            inv,
                            insert_rule_grouped(g, r.rank, name, r.match_type),
                        );
                    }
                },
            }
        }
    }
}

} // verus!
