use vstd::prelude::*;

verus! {

/// One attribute cell of a matrix row: the attribute's name and its binary
/// match flag (0 or 1 in a valid row).
#[derive(Debug, Clone, PartialEq, Eq)]
pub struct AttrFlag {
    pub name: String,
    pub flag: u8,
}

/// One matrix (wide) row: a rank and an open set of attribute flags.
#[derive(Debug, Clone, PartialEq, Eq)]
pub struct MatrixRow {
    pub rank: i32,
    pub attrs: Vec<AttrFlag>,
}

/// One entry of the externally supplied bidirectional attribute table
/// (`name <-> id`). The same table type serves both lookup directions.
#[derive(Debug, Clone, PartialEq, Eq)]
pub struct AttrIdName {
    pub id: i32,
    pub name: String,
}

/// First entry of `m` whose name is `name`, if any: the id an attribute name
/// resolves to.
pub open spec fn lookup_id(m: Seq<AttrIdName>, name: Seq<char>) -> Option<i32>
    decreases m.len(),
{
    if m.len() == 0 {
        None
    } else if m[0].name@ == name {
        Some(m[0].id)
    } else {
        lookup_id(m.drop_first(), name)
    }
}

/// First entry of `m` whose id is `id`, if any: the name an attribute id
/// resolves to.
pub open spec fn lookup_name(m: Seq<AttrIdName>, id: i32) -> Option<Seq<char>>
    decreases m.len(),
{
    if m.len() == 0 {
        None
    } else if m[0].id == id {
        Some(m[0].name@)
    } else {
        lookup_name(m.drop_first(), id)
    }
}

/// Strict lexicographic order on character sequences, by code point; the
/// order in which attribute names are laid out within a matrix row.
pub open spec fn lex_lt(a: Seq<char>, b: Seq<char>) -> bool
    decreases a.len(),
{
    if b.len() == 0 {
        false
    } else if a.len() == 0 {
        true
    } else if a[0] != b[0] {
        a[0] < b[0]
    } else {
        lex_lt(a.drop_first(), b.drop_first())
    }
}

/// Compares two strings in the lexicographic order `lex_lt`.
pub fn str_lex_lt(a: &str, b: &str) -> (r: bool)
    ensures
        r == lex_lt(a@, b@),
{
    let alen = a.unicode_len();
    let blen = b.unicode_len();
    let mut i: usize = 0;
    assert(a@.skip(0) =~= a@);
    assert(b@.skip(0) =~= b@);
    while i < alen && i < blen
        invariant
            0 <= i <= alen,
            0 <= i <= blen,
            alen == a@.len(),
            blen == b@.len(),
            lex_lt(a@, b@) == lex_lt(a@.skip(i as int), b@.skip(i as int)),
        decreases alen - i,
    {
        let ca = a.get_char(i);
        let cb = b.get_char(i);
        assert(a@.skip(i as int)[0] == a@[i as int]);
        assert(b@.skip(i as int)[0] == b@[i as int]);
        if ca != cb {
            return ca < cb;
        }
        assert(a@.skip(i as int).drop_first() =~= a@.skip(i as int + 1));
        assert(b@.skip(i as int).drop_first() =~= b@.skip(i as int + 1));
        i = i + 1;
    }
    if i < blen {
        assert(b@.skip(i as int).len() > 0);
        assert(a@.skip(i as int).len() == 0);
        true
    } else {
        assert(b@.skip(i as int).len() == 0);
        false
    }
}

/// Resolves an attribute name to its id through the supplied table.
pub fn lookup_attr_id(m: &Vec<AttrIdName>, name: &String) -> (r: Option<i32>)
    ensures
        r == lookup_id(m@, name@),
{
    let mut k: usize = 0;
    assert(m@.skip(0) =~= m@);
    while k < m.len()
        invariant
            0 <= k <= m@.len(),
            lookup_id(m@, name@) == lookup_id(m@.skip(k as int), name@),
        decreases m@.len() - k,
    {
        assert(m@.skip(k as int)[0] == m@[k as int]);
        if m[k].name == *name {
            return Some(m[k].id);
        }
        assert(m@.skip(k as int).drop_first() =~= m@.skip(k as int + 1));
        k = k + 1;
    }
    assert(m@.skip(k as int).len() == 0);
    None
}

/// Resolves an attribute id to its name through the supplied table.
pub fn lookup_attr_name<'a>(m: &'a Vec<AttrIdName>, id: i32) -> (r: Option<&'a String>)
    ensures
        match r {
            Some(s) => lookup_name(m@, id) == Some(s@),
            None => lookup_name(m@, id) is None,
        },
{
    let mut k: usize = 0;
    assert(m@.skip(0) =~= m@);
    while k < m.len()
        invariant
            0 <= k <= m@.len(),
            lookup_name(m@, id) == lookup_name(m@.skip(k as int), id),
        decreases m@.len() - k,
    {
        assert(m@.skip(k as int)[0] == m@[k as int]);
        if m[k].id == id {
            return Some(&m[k].name);
        }
        assert(m@.skip(k as int).drop_first() =~= m@.skip(k as int + 1));
        k = k + 1;
    }
    assert(m@.skip(k as int).len() == 0);
    None
}

/// Lexicographic order is transitive.
pub proof fn lemma_lex_lt_trans(a: Seq<char>, b: Seq<char>, c: Seq<char>)
    requires
        lex_lt(a, b),
        lex_lt(b, c),
    ensures
        lex_lt(a, c),
    decreases a.len(),
{
    if a.len() == 0 {
    } else {
        if a[0] == b[0] && b[0] == c[0] {
            lemma_lex_lt_trans(a.drop_first(), b.drop_first(), c.drop_first());
        }
    }
}

/// Two distinct sequences are ordered one way or the other.
pub proof fn lemma_lex_lt_total(a: Seq<char>, b: Seq<char>)
    requires
        !lex_lt(a, b),
        a != b,
    ensures
        lex_lt(b, a),
    decreases a.len(),
{
    if b.len() == 0 {
        assert(a.len() != 0) by {
            if a.len() == 0 {
                assert(a =~= b);
            }
        }
    } else {
        assert(a.len() != 0);
        if a[0] == b[0] {
            assert(a.drop_first() != b.drop_first()) by {
                if a.drop_first() == b.drop_first() {
                    assert(a.drop_first().len() == b.drop_first().len());
                    assert(a.len() == b.len());
                    assert forall|i: int| 0 <= i < a.len() implies a[i] == b[i] by {
                        if i > 0 {
                            assert(a[i] == a.drop_first()[i - 1]);
                            assert(b[i] == b.drop_first()[i - 1]);
                        }
                    }
                    assert(a =~= b);
                }
            }
            lemma_lex_lt_total(a.drop_first(), b.drop_first());
        }
    }
}

} // verus!
