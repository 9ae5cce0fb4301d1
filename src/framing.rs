//! Text framing: fields joined by a separator byte, and split back.
use vstd::prelude::*;

verus! {

/// The fields, with `sep` between each two.
pub open spec fn join(fields: Seq<Seq<u8>>, sep: u8) -> Seq<u8>
    decreases fields.len(),
{
    if fields.len() == 0 {
        Seq::empty()
    } else if fields.len() == 1 {
        fields[0]
    } else {
        join(fields.drop_last(), sep) + seq![sep] + fields.last()
    }
}

/// No field holds the byte `c`.
pub open spec fn free_of(fields: Seq<Seq<u8>>, c: u8) -> bool {
    forall|i: int, j: int| 0 <= i < fields.len() && 0 <= j < fields[i].len() ==> #[trigger] fields[i][j] != c
}

pub open spec fn lacks(s: Seq<u8>, c: u8) -> bool {
    forall|j: int| 0 <= j < s.len() ==> #[trigger] s[j] != c
}

/// Joining fields free of `c`, with a separator other than `c`, gives text free of `c`.
pub proof fn lemma_join_lacks(fields: Seq<Seq<u8>>, sep: u8, c: u8)
    requires
        free_of(fields, c),
        sep != c,
    ensures
        lacks(join(fields, sep), c),
    decreases fields.len(),
{
    if fields.len() > 1 {
        let init = fields.drop_last();
        assert(free_of(init, c)) by {
            assert forall|i: int, j: int| 0 <= i < init.len() && 0 <= j < init[i].len() implies #[trigger] init[i][j] != c by {
                assert(init[i] == fields[i]);
            }
        }
        lemma_join_lacks(init, sep, c);
        let t = join(fields, sep);
        let a = join(init, sep);
        assert forall|j: int| 0 <= j < t.len() implies #[trigger] t[j] != c by {
            if j > a.len() {
                assert(t[j] == fields.last()[j - a.len() - 1]);
            }
        }
    } else if fields.len() == 1 {
        assert forall|j: int| 0 <= j < fields[0].len() implies #[trigger] fields[0][j] != c by {
            assert(fields[0][j] != c);
        }
    }
}

/// A list of at least one field, each free of the separator, is read back
/// unchanged from its joined text.
pub proof fn lemma_join_injective(a: Seq<Seq<u8>>, b: Seq<Seq<u8>>, sep: u8)
    requires
        a.len() >= 1,
        b.len() >= 1,
        free_of(a, sep),
        free_of(b, sep),
        join(a, sep) == join(b, sep),
    ensures
        a == b,
    decreases a.len() + b.len(),
{
    let t = join(a, sep);
    if a.len() == 1 && b.len() == 1 {
        assert(a =~= b);
    } else if a.len() == 1 {
        let p = join(b.drop_last(), sep).len() as int;
        assert(t[p] == sep);
        assert(a[0][p] != sep);
    } else if b.len() == 1 {
        let p = join(a.drop_last(), sep).len() as int;
        assert(t[p] == sep);
        assert(b[0][p] != sep);
    } else {
        let la = a.last().len() as int;
        let lb = b.last().len() as int;
        let pa = join(a.drop_last(), sep).len() as int;
        let pb = join(b.drop_last(), sep).len() as int;
        assert(t.len() == pa + 1 + la);
        assert(t.len() == pb + 1 + lb);
        if la < lb {
            assert(t[pa] == sep);
            assert(t[pa] == b.last()[pa - pb - 1]);
        } else if lb < la {
            assert(t[pb] == sep);
            assert(t[pb] == a.last()[pb - pa - 1]);
        } else {
            let ia = a.drop_last();
            let ib = b.drop_last();
            assert(join(ia, sep) =~= t.subrange(0, pa));
            assert(join(ib, sep) =~= t.subrange(0, pb));
            assert(a.last() =~= t.subrange(pa + 1, t.len() as int));
            assert(b.last() =~= t.subrange(pb + 1, t.len() as int));
            assert(free_of(ia, sep)) by {
                assert forall|i: int, j: int| 0 <= i < ia.len() && 0 <= j < ia[i].len() implies #[trigger] ia[i][j] != sep by {
                    assert(ia[i] == a[i]);
                }
            }
            assert(free_of(ib, sep)) by {
                assert forall|i: int, j: int| 0 <= i < ib.len() && 0 <= j < ib[i].len() implies #[trigger] ib[i][j] != sep by {
                    assert(ib[i] == b[i]);
                }
            }
            lemma_join_injective(ia, ib, sep);
            assert(a =~= ib.push(b.last()));
            assert(b =~= ib.push(b.last()));
        }
    }
}

/// Appends `sep` (unless `first`) and then `field` to `out`.
pub fn push_field(out: &mut Vec<u8>, field: &[u8], sep: u8, first: bool)
    ensures
        final(out)@ == if first {
            old(out)@ + field@
        } else {
            old(out)@ + seq![sep] + field@
        },
{
    if !first {
        out.push(sep);
    }
    let mut i: usize = 0;
    let ghost start = out@;
    while i < field.len()
        invariant
            0 <= i <= field@.len(),
            out@ == start + field@.subrange(0, i as int),
        decreases field@.len() - i,
    {
        out.push(field[i]);
        i = i + 1;
        assert(out@ =~= start + field@.subrange(0, i as int));
    }
    assert(field@.subrange(0, field@.len() as int) =~= field@);
}

/// The views of byte vectors.
pub open spec fn views(v: Seq<Vec<u8>>) -> Seq<Seq<u8>> {
    v.map_values(|x: Vec<u8>| x@)
}

/// Splits `s` at every `sep`: at least one field, none holding `sep`.
pub fn split(s: &[u8], sep: u8) -> (r: Vec<Vec<u8>>)
    ensures
        r@.len() >= 1,
        free_of(views(r@), sep),
        join(views(r@), sep) == s@,
{
    let mut r: Vec<Vec<u8>> = Vec::new();
    let mut cur: Vec<u8> = Vec::new();
    let mut i: usize = 0;
    while i < s.len()
        invariant
            0 <= i <= s@.len(),
            free_of(views(r@), sep),
            lacks(cur@, sep),
            join(views(r@).push(cur@), sep) == s@.subrange(0, i as int),
        decreases s@.len() - i,
    {
        let ghost before = views(r@);
        let ghost old_cur = cur@;
        let c = s[i];
        if c == sep {
            r.push(cur);
            cur = Vec::new();
            proof {
                let f = views(r@);
                assert(f =~= before.push(old_cur));
                assert(f.push(cur@).drop_last() =~= f);
                assert(free_of(f, sep)) by {
                    assert forall|a: int, j: int| 0 <= a < f.len() && 0 <= j < f[a].len() implies #[trigger] f[a][j] != sep by {
                        if a < before.len() {
                            assert(f[a] == before[a]);
                        }
                    }
                }
            }
        } else {
            cur.push(c);
            proof {
                let f = views(r@);
                assert(f.push(cur@).drop_last() =~= f);
                assert(f.push(old_cur).drop_last() =~= f);
                assert(f.push(cur@).last() =~= old_cur + seq![c]);
            }
        }
        i = i + 1;
        assert(s@.subrange(0, i as int) =~= s@.subrange(0, i - 1) + seq![c]);
    }
    let ghost before = views(r@);
    let ghost last = cur@;
    r.push(cur);
    assert(views(r@) =~= before.push(last));
    assert(s@.subrange(0, s@.len() as int) =~= s@);
    r
}

/// The one list of fields, at least one and each free of `sep`, that joins to `t`.
pub open spec fn split_spec(t: Seq<u8>, sep: u8) -> Seq<Seq<u8>> {
    choose|fs: Seq<Seq<u8>>| fs.len() >= 1 && free_of(fs, sep) && join(fs, sep) == t
}

pub proof fn lemma_split_spec(fs: Seq<Seq<u8>>, sep: u8)
    requires
        fs.len() >= 1,
        free_of(fs, sep),
    ensures
        split_spec(join(fs, sep), sep) == fs,
{
    let t = join(fs, sep);
    let c = split_spec(t, sep);
    lemma_join_injective(c, fs, sep);
}

/// A list of items, each introduced by `sep`; empty for no items.
pub open spec fn list_text(items: Seq<Seq<u8>>, sep: u8) -> Seq<u8> {
    if items.len() == 0 {
        Seq::empty()
    } else {
        seq![sep] + join(items, sep)
    }
}

/// Reads a list written by `list_text`.
pub open spec fn parse_list(t: Seq<u8>, sep: u8) -> Option<Seq<Seq<u8>>> {
    if t.len() == 0 {
        Some(Seq::empty())
    } else if t[0] == sep {
        Some(split_spec(t.drop_first(), sep))
    } else {
        None
    }
}

pub proof fn lemma_list_round_trip(items: Seq<Seq<u8>>, sep: u8)
    requires
        free_of(items, sep),
    ensures
        parse_list(list_text(items, sep), sep) == Some(items),
{
    if items.len() > 0 {
        let t = list_text(items, sep);
        assert(t.drop_first() =~= join(items, sep));
        lemma_split_spec(items, sep);
    }
}

/// A list text holds no byte that its items and separator lack.
pub proof fn lemma_list_lacks(items: Seq<Seq<u8>>, sep: u8, c: u8)
    requires
        free_of(items, c),
        sep != c,
    ensures
        lacks(list_text(items, sep), c),
{
    if items.len() > 0 {
        lemma_join_lacks(items, sep, c);
        let t = list_text(items, sep);
        let j = join(items, sep);
        assert forall|i: int| 0 <= i < t.len() implies #[trigger] t[i] != c by {
            if i > 0 {
                assert(t[i] == j[i - 1]);
            }
        }
    }
}

/// The fields joined by `sep`.
pub fn join_fields(fields: &Vec<Vec<u8>>, sep: u8) -> (r: Vec<u8>)
    ensures
        r@ == join(views(fields@), sep),
{
    let mut r: Vec<u8> = Vec::new();
    let mut i: usize = 0;
    while i < fields.len()
        invariant
            0 <= i <= fields@.len(),
            r@ == join(views(fields@).subrange(0, i as int), sep),
        decreases fields@.len() - i,
    {
        let ghost pre = views(fields@).subrange(0, i as int);
        push_field(&mut r, fields[i].as_slice(), sep, i == 0);
        proof {
            let next = views(fields@).subrange(0, i + 1);
            assert(next.drop_last() =~= pre);
            if i == 0 {
                assert(pre =~= Seq::<Seq<u8>>::empty());
                assert(r@ =~= fields@[0]@);
            }
        }
        i = i + 1;
    }
    assert(views(fields@).subrange(0, fields@.len() as int) =~= views(fields@));
    r
}

/// The items as written by `list_text`.
pub fn write_list(items: &Vec<Vec<u8>>, sep: u8) -> (r: Vec<u8>)
    ensures
        r@ == list_text(views(items@), sep),
{
    if items.len() == 0 {
        let r: Vec<u8> = Vec::new();
        assert(r@ =~= Seq::<u8>::empty());
        r
    } else {
        let mut r: Vec<u8> = Vec::new();
        r.push(sep);
        let body = join_fields(items, sep);
        push_field(&mut r, body.as_slice(), sep, true);
        r
    }
}

/// Reads a list written by `write_list`.
pub fn read_list(t: &[u8], sep: u8) -> (r: Option<Vec<Vec<u8>>>)
    ensures
        r is Some <==> parse_list(t@, sep) is Some,
        r matches Some(v) ==> parse_list(t@, sep) == Some(views(v@)),
{
    if t.len() == 0 {
        let v: Vec<Vec<u8>> = Vec::new();
        assert(views(v@) =~= Seq::<Seq<u8>>::empty());
        Some(v)
    } else if t[0] == sep {
        let (_, rest) = t.split_at(1);
        assert(rest@ =~= t@.drop_first());
        let v = split(rest, sep);
        proof {
            lemma_split_spec(views(v@), sep);
        }
        Some(v)
    } else {
        None
    }
}

} // verus!
