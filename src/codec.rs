//! The snapshot text: how records, keys and whole tables are written as text
//! that holds only hex digits, decimal digits and a few separators, and read
//! back.
//!
//! A record is first a list of byte strings (its raw fields), each written in
//! hex. A row of a table is its key text followed by its record's fields,
//! joined by spaces. A table is its rows, each introduced by `;`.
use vstd::prelude::*;
use crate::framing::{
    free_of, join, join_fields, lacks, lemma_list_lacks, lemma_list_round_trip, lemma_split_spec,
    list_text, parse_list, read_list, split, split_spec, views, write_list,
};
use crate::hexcode::{decode_hex, encode_hex, hex_of, is_hex_char, lemma_hex_round_trip, unhex, valid_hex};
use crate::decimal::{dec_of, dec_value, lemma_dec_round_trip, parse_decimal, valid_dec, write_decimal};
use crate::table::{lemma_row_views, view_keys_unique, view_map, Dup, EpochKey, Key, Table};

verus! {

/// Between the fields of a row: a space.
pub const FIELD_SEP: u8 = 32;

/// Before each row of a table: `;`.
pub const ROW_SEP: u8 = 59;

/// Between the sections of a snapshot: a line break.
pub const SECTION_SEP: u8 = 10;

/// Between the group id and the epoch of an exporter-secret key: `:`.
pub const PAIR_SEP: u8 = 58;

/// Text made of hex digits and `:` alone.
pub open spec fn clean(s: Seq<u8>) -> bool {
    forall|j: int| 0 <= j < s.len() ==> is_hex_char(#[trigger] s[j]) || s[j] == PAIR_SEP
}

pub open spec fn all_clean(fs: Seq<Seq<u8>>) -> bool {
    forall|i: int| 0 <= i < fs.len() ==> clean(#[trigger] fs[i])
}

pub proof fn lemma_clean_free(fs: Seq<Seq<u8>>, c: u8)
    requires
        all_clean(fs),
        !is_hex_char(c),
        c != PAIR_SEP,
    ensures
        free_of(fs, c),
{
    assert forall|i: int, j: int| 0 <= i < fs.len() && 0 <= j < fs[i].len() implies #[trigger] fs[i][j] != c by {
        assert(clean(fs[i]));
    }
}

/// Each raw field written in hex.
pub open spec fn hex_fields(raw: Seq<Seq<u8>>) -> Seq<Seq<u8>> {
    raw.map_values(|b: Seq<u8>| hex_of(b))
}

/// The raw fields that hex fields stand for, if each is valid hex.
pub open spec fn unhex_fields(f: Seq<Seq<u8>>) -> Option<Seq<Seq<u8>>> {
    if forall|i: int| 0 <= i < f.len() ==> valid_hex(#[trigger] f[i]) {
        Some(f.map_values(|x: Seq<u8>| unhex(x)))
    } else {
        None
    }
}

pub proof fn lemma_hex_fields(raw: Seq<Seq<u8>>)
    ensures
        unhex_fields(hex_fields(raw)) == Some(raw),
        all_clean(hex_fields(raw)),
{
    let h = hex_fields(raw);
    assert forall|i: int| 0 <= i < h.len() implies valid_hex(#[trigger] h[i]) && clean(h[i]) by {
        lemma_hex_round_trip(raw[i]);
    }
    let u = h.map_values(|x: Seq<u8>| unhex(x));
    assert forall|i: int| 0 <= i < h.len() implies #[trigger] u[i] == raw[i] by {
        lemma_hex_round_trip(raw[i]);
    }
    assert(u =~= raw);
}

pub fn write_hex_fields(raw: &Vec<Vec<u8>>) -> (r: Vec<Vec<u8>>)
    ensures
        views(r@) == hex_fields(views(raw@)),
{
    let mut r: Vec<Vec<u8>> = Vec::new();
    let mut i: usize = 0;
    while i < raw.len()
        invariant
            0 <= i <= raw@.len(),
            views(r@) == hex_fields(views(raw@)).subrange(0, i as int),
        decreases raw@.len() - i,
    {
        let ghost before = r@;
        let h = encode_hex(raw[i].as_slice());
        let ghost hv = h@;
        r.push(h);
        assert(views(r@) =~= views(before).push(hv));
        assert(hex_fields(views(raw@)).subrange(0, i + 1) =~= hex_fields(views(raw@)).subrange(0, i as int).push(hv));
        i = i + 1;
    }
    assert(hex_fields(views(raw@)).subrange(0, raw@.len() as int) =~= hex_fields(views(raw@)));
    r
}

pub fn read_hex_fields(f: &[Vec<u8>]) -> (r: Option<Vec<Vec<u8>>>)
    ensures
        r is Some <==> unhex_fields(views(f@)) is Some,
        r matches Some(v) ==> unhex_fields(views(f@)) == Some(views(v@)),
{
    let mut r: Vec<Vec<u8>> = Vec::new();
    let mut i: usize = 0;
    while i < f.len()
        invariant
            0 <= i <= f@.len(),
            forall|j: int| 0 <= j < i ==> valid_hex(#[trigger] views(f@)[j]),
            views(r@) == views(f@).subrange(0, i as int).map_values(|x: Seq<u8>| unhex(x)),
        decreases f@.len() - i,
    {
        match decode_hex(f[i].as_slice()) {
            Ok(b) => {
                let ghost before = r@;
                let ghost bv = b@;
                r.push(b);
                assert(views(r@) =~= views(before).push(bv));
                assert(views(f@).subrange(0, i + 1).map_values(|x: Seq<u8>| unhex(x)) =~= views(f@).subrange(0, i as int).map_values(|x: Seq<u8>| unhex(x)).push(bv));
            },
            Err(_) => {
                assert(!valid_hex(views(f@)[i as int]));
                return None;
            },
        }
        i = i + 1;
    }
    assert(views(f@).subrange(0, f@.len() as int) =~= views(f@));
    Some(r)
}

/// A record as a list of raw byte strings.
pub trait Record: Dup {
    spec fn raw(v: Self::V) -> Seq<Seq<u8>>;

    spec fn from_raw(r: Seq<Seq<u8>>) -> Option<Self::V>;

    proof fn lemma_raw(v: Self::V)
        ensures
            Self::from_raw(Self::raw(v)) == Some(v),
    ;

    fn to_raw(&self) -> (r: Vec<Vec<u8>>)
        ensures
            views(r@) == Self::raw(self@),
    ;

    fn read_raw(r: Vec<Vec<u8>>) -> (o: Option<Self>)
        ensures
            o is Some <==> Self::from_raw(views(r@)) is Some,
            o matches Some(x) ==> Self::from_raw(views(r@)) == Some(x@),
    ;
}

/// A key as one field of text.
pub trait TextKey: Key {
    spec fn key_text(k: Self::V) -> Seq<u8>;

    spec fn parse_key(t: Seq<u8>) -> Option<Self::V>;

    proof fn lemma_key(k: Self::V)
        ensures
            Self::parse_key(Self::key_text(k)) == Some(k),
            clean(Self::key_text(k)),
    ;

    fn write_key(&self) -> (r: Vec<u8>)
        ensures
            r@ == Self::key_text(self@),
    ;

    fn read_key(t: &[u8]) -> (o: Option<Self>)
        ensures
            o is Some <==> Self::parse_key(t@) is Some,
            o matches Some(x) ==> Self::parse_key(t@) == Some(x@),
    ;
}

/// A value written as one line of fields.
pub trait Line: View + Sized {
    spec fn fields(v: Self::V) -> Seq<Seq<u8>>;

    spec fn parse(f: Seq<Seq<u8>>) -> Option<Self::V>;

    proof fn lemma_line(v: Self::V)
        ensures
            Self::parse(Self::fields(v)) == Some(v),
            Self::fields(v).len() >= 1,
            all_clean(Self::fields(v)),
    ;

    fn write(&self) -> (r: Vec<Vec<u8>>)
        ensures
            views(r@) == Self::fields(self@),
    ;

    fn read(f: &Vec<Vec<u8>>) -> (o: Option<Self>)
        ensures
            o is Some <==> Self::parse(views(f@)) is Some,
            o matches Some(x) ==> Self::parse(views(f@)) == Some(x@),
    ;
}

/// A row of a table: its key text, then its record's fields in hex.
impl<K: TextKey, V: Record> Line for (K, V) {
    open spec fn fields(v: (K::V, V::V)) -> Seq<Seq<u8>> {
        seq![K::key_text(v.0)] + hex_fields(V::raw(v.1))
    }

    open spec fn parse(f: Seq<Seq<u8>>) -> Option<(K::V, V::V)> {
        if f.len() == 0 {
            None
        } else {
            match (K::parse_key(f[0]), unhex_fields(f.drop_first())) {
                (Some(k), Some(raw)) => match V::from_raw(raw) {
                    Some(v) => Some((k, v)),
                    None => None,
                },
                _ => None,
            }
        }
    }

    proof fn lemma_line(v: (K::V, V::V)) {
        K::lemma_key(v.0);
        V::lemma_raw(v.1);
        lemma_hex_fields(V::raw(v.1));
        let f = Self::fields(v);
        assert(f.drop_first() =~= hex_fields(V::raw(v.1)));
        assert forall|i: int| 0 <= i < f.len() implies clean(#[trigger] f[i]) by {
            if i > 0 {
                assert(f[i] == hex_fields(V::raw(v.1))[i - 1]);
            }
        }
    }

    fn write(&self) -> (r: Vec<Vec<u8>>) {
        let mut r: Vec<Vec<u8>> = Vec::new();
        r.push(self.0.write_key());
        let raw = self.1.to_raw();
        let mut h = write_hex_fields(&raw);
        let ghost first = views(r@);
        let ghost rest = views(h@);
        r.append(&mut h);
        assert(views(r@) =~= first + rest);
        r
    }

    fn read(f: &Vec<Vec<u8>>) -> (o: Option<(K, V)>) {
        if f.len() == 0 {
            return None;
        }
        let k = match K::read_key(f[0].as_slice()) {
            Some(k) => k,
            None => return None,
        };
        let (_, rest) = f.as_slice().split_at(1);
        assert(views(rest@) =~= views(f@).drop_first());
        let raw = match read_hex_fields(rest) {
            Some(raw) => raw,
            None => return None,
        };
        match V::read_raw(raw) {
            Some(v) => Some((k, v)),
            None => None,
        }
    }
}

/// One value as a line of text.
pub open spec fn line_text<L: Line>(v: L::V) -> Seq<u8> {
    join(L::fields(v), FIELD_SEP)
}

pub open spec fn parse_line<L: Line>(t: Seq<u8>) -> Option<L::V> {
    L::parse(split_spec(t, FIELD_SEP))
}

/// A list of values, each line introduced by `;`.
pub open spec fn lines_text<L: Line>(vs: Seq<L::V>) -> Seq<u8> {
    list_text(vs.map_values(|v: L::V| line_text::<L>(v)), ROW_SEP)
}

pub open spec fn parse_lines<L: Line>(t: Seq<u8>) -> Option<Seq<L::V>> {
    match parse_list(t, ROW_SEP) {
        Some(items) => if forall|i: int| 0 <= i < items.len() ==> (#[trigger] parse_line::<L>(items[i])) is Some {
            Some(items.map_values(|x: Seq<u8>| parse_line::<L>(x)->Some_0))
        } else {
            None
        },
        None => None,
    }
}

/// The views of a list of values.
pub open spec fn all_views<L: View>(v: Seq<L>) -> Seq<L::V> {
    v.map_values(|x: L| x@)
}

pub proof fn lemma_line_text<L: Line>(v: L::V)
    ensures
        parse_line::<L>(line_text::<L>(v)) == Some(v),
        lacks(line_text::<L>(v), ROW_SEP),
        lacks(line_text::<L>(v), SECTION_SEP),
{
    L::lemma_line(v);
    lemma_clean_free(L::fields(v), FIELD_SEP);
    lemma_clean_free(L::fields(v), ROW_SEP);
    lemma_clean_free(L::fields(v), SECTION_SEP);
    lemma_split_spec(L::fields(v), FIELD_SEP);
    crate::framing::lemma_join_lacks(L::fields(v), FIELD_SEP, ROW_SEP);
    crate::framing::lemma_join_lacks(L::fields(v), FIELD_SEP, SECTION_SEP);
}

/// Lines text reads back as the same values, and holds no section separator.
pub proof fn lemma_lines_round_trip<L: Line>(vs: Seq<L::V>)
    ensures
        parse_lines::<L>(lines_text::<L>(vs)) == Some(vs),
        lacks(lines_text::<L>(vs), SECTION_SEP),
{
    let items = vs.map_values(|v: L::V| line_text::<L>(v));
    assert forall|i: int| 0 <= i < items.len() implies (#[trigger] parse_line::<L>(items[i])) == Some(vs[i])
        && lacks(items[i], ROW_SEP) && lacks(items[i], SECTION_SEP) by {
        lemma_line_text::<L>(vs[i]);
    }
    assert forall|i: int, j: int| 0 <= i < items.len() && 0 <= j < items[i].len() implies #[trigger] items[i][j] != ROW_SEP && items[i][j] != SECTION_SEP by {
        lemma_line_text::<L>(vs[i]);
        assert(lacks(items[i], ROW_SEP));
        assert(lacks(items[i], SECTION_SEP));
    }
    assert(free_of(items, ROW_SEP));
    assert(free_of(items, SECTION_SEP));
    lemma_list_round_trip(items, ROW_SEP);
    lemma_list_lacks(items, ROW_SEP, SECTION_SEP);
    assert(items.map_values(|x: Seq<u8>| parse_line::<L>(x)->Some_0) =~= vs);
}

pub fn write_lines<L: Line>(items: &Vec<L>) -> (r: Vec<u8>)
    ensures
        r@ == lines_text::<L>(all_views(items@)),
{
    let mut texts: Vec<Vec<u8>> = Vec::new();
    let mut i: usize = 0;
    while i < items.len()
        invariant
            0 <= i <= items@.len(),
            views(texts@) == all_views(items@).subrange(0, i as int).map_values(|v: L::V| line_text::<L>(v)),
        decreases items@.len() - i,
    {
        let f = items[i].write();
        let t = join_fields(&f, FIELD_SEP);
        let ghost before = texts@;
        let ghost tv = t@;
        texts.push(t);
        assert(views(texts@) =~= views(before).push(tv));
        assert(all_views(items@).subrange(0, i + 1).map_values(|v: L::V| line_text::<L>(v)) =~= all_views(items@).subrange(0, i as int).map_values(|v: L::V| line_text::<L>(v)).push(tv));
        i = i + 1;
    }
    assert(all_views(items@).subrange(0, items@.len() as int) =~= all_views(items@));
    write_list(&texts, ROW_SEP)
}

pub fn read_lines<L: Line>(t: &[u8]) -> (r: Option<Vec<L>>)
    ensures
        r is Some <==> parse_lines::<L>(t@) is Some,
        r matches Some(v) ==> parse_lines::<L>(t@) == Some(all_views(v@)),
{
    let items = match read_list(t, ROW_SEP) {
        Some(items) => items,
        None => return None,
    };
    let ghost its = views(items@);
    let mut r: Vec<L> = Vec::new();
    let mut i: usize = 0;
    while i < items.len()
        invariant
            its == views(items@),
            parse_list(t@, ROW_SEP) == Some(its),
            0 <= i <= items@.len(),
            forall|j: int| 0 <= j < i ==> (#[trigger] parse_line::<L>(its[j])) is Some,
            all_views(r@) == its.subrange(0, i as int).map_values(|x: Seq<u8>| parse_line::<L>(x)->Some_0),
        decreases items@.len() - i,
    {
        let f = split(items[i].as_slice(), FIELD_SEP);
        proof {
            lemma_split_spec(views(f@), FIELD_SEP);
            assert(its[i as int] == items@[i as int]@);
        }
        match L::read(&f) {
            Some(v) => {
                let ghost before = r@;
                let ghost vv = v@;
                r.push(v);
                assert(all_views(r@) =~= all_views(before).push(vv));
                assert(its.subrange(0, i + 1).map_values(|x: Seq<u8>| parse_line::<L>(x)->Some_0) =~= its.subrange(0, i as int).map_values(|x: Seq<u8>| parse_line::<L>(x)->Some_0).push(vv));
            },
            None => {
                assert(parse_line::<L>(its[i as int]) is None);
                return None;
            },
        }
        i = i + 1;
    }
    assert(its.subrange(0, items@.len() as int) =~= its);
    Some(r)
}

/// A byte-string key is written in hex.
impl TextKey for Vec<u8> {
    open spec fn key_text(k: Seq<u8>) -> Seq<u8> {
        hex_of(k)
    }

    open spec fn parse_key(t: Seq<u8>) -> Option<Seq<u8>> {
        if valid_hex(t) {
            Some(unhex(t))
        } else {
            None
        }
    }

    proof fn lemma_key(k: Seq<u8>) {
        lemma_hex_round_trip(k);
    }

    fn write_key(&self) -> (r: Vec<u8>) {
        encode_hex(self.as_slice())
    }

    fn read_key(t: &[u8]) -> (o: Option<Vec<u8>>) {
        match decode_hex(t) {
            Ok(v) => Some(v),
            Err(_) => None,
        }
    }
}

/// A group id and an epoch are written as the id in hex, `:`, and the epoch in
/// decimal.
impl TextKey for EpochKey {
    open spec fn key_text(k: (Seq<u8>, u64)) -> Seq<u8> {
        hex_of(k.0) + seq![PAIR_SEP] + dec_of(k.1 as nat)
    }

    open spec fn parse_key(t: Seq<u8>) -> Option<(Seq<u8>, u64)> {
        let parts = split_spec(t, PAIR_SEP);
        if parts.len() == 2 && valid_hex(parts[0]) && valid_dec(parts[1]) && dec_value(parts[1]) <= u64::MAX {
            Some((unhex(parts[0]), dec_value(parts[1]) as u64))
        } else {
            None
        }
    }

    proof fn lemma_key(k: (Seq<u8>, u64)) {
        lemma_hex_round_trip(k.0);
        lemma_dec_round_trip(k.1 as nat);
        let h = hex_of(k.0);
        let d = dec_of(k.1 as nat);
        let parts = seq![h, d];
        assert(parts.drop_last() =~= seq![h]);
        assert(join(seq![h], PAIR_SEP) == h);
        assert(join(parts, PAIR_SEP) == join(parts.drop_last(), PAIR_SEP) + seq![PAIR_SEP] + parts.last());
        assert(join(parts, PAIR_SEP) =~= Self::key_text(k));
        assert forall|i: int, j: int| 0 <= i < parts.len() && 0 <= j < parts[i].len() implies #[trigger] parts[i][j] != PAIR_SEP by {
            if i == 0 {
                assert(is_hex_char(h[j]));
            } else {
                assert(crate::decimal::is_digit(d[j]));
            }
        }
        lemma_split_spec(parts, PAIR_SEP);
        let t = Self::key_text(k);
        assert forall|j: int| 0 <= j < t.len() implies is_hex_char(#[trigger] t[j]) || t[j] == PAIR_SEP by {
            if j > h.len() {
                assert(t[j] == d[j - h.len() - 1]);
                assert(crate::decimal::is_digit(d[j - h.len() - 1]));
            } else if j < h.len() {
                assert(t[j] == h[j]);
            }
        }
    }

    fn write_key(&self) -> (r: Vec<u8>) {
        let mut r = encode_hex(self.group_id.as_slice());
        r.push(PAIR_SEP);
        let d = write_decimal(self.epoch);
        crate::framing::push_field(&mut r, d.as_slice(), PAIR_SEP, true);
        r
    }

    fn read_key(t: &[u8]) -> (o: Option<EpochKey>) {
        let parts = split(t, PAIR_SEP);
        proof {
            lemma_split_spec(views(parts@), PAIR_SEP);
        }
        if parts.len() != 2 {
            return None;
        }
        let group_id = match decode_hex(parts[0].as_slice()) {
            Ok(v) => v,
            Err(_) => return None,
        };
        match parse_decimal(parts[1].as_slice()) {
            Some(epoch) => Some(EpochKey { group_id, epoch }),
            None => None,
        }
    }
}

/// A table as text: its rows, each on a line introduced by `;`.
pub open spec fn table_text<K: TextKey, V: Record>(rows: Seq<(K::V, V::V)>) -> Seq<u8> {
    lines_text::<(K, V)>(rows)
}

/// The rows that table text stands for, if each row reads and no two share a key.
pub open spec fn parse_table<K: TextKey, V: Record>(t: Seq<u8>) -> Option<Seq<(K::V, V::V)>> {
    match parse_lines::<(K, V)>(t) {
        Some(rs) => if view_keys_unique(rs) {
            Some(rs)
        } else {
            None
        },
        None => None,
    }
}

pub fn write_table<K: TextKey, V: Record>(t: &Table<K, V>) -> (r: Vec<u8>)
    ensures
        r@ == table_text::<K, V>(all_views(t.rows@)),
{
    write_lines(&t.rows)
}

pub fn read_table<K: TextKey, V: Record>(t: &[u8]) -> (r: Option<Table<K, V>>)
    ensures
        r is Some <==> parse_table::<K, V>(t@) is Some,
        r matches Some(x) ==> x.wf() && x@ == view_map(parse_table::<K, V>(t@)->0),
{
    match read_lines::<(K, V)>(t) {
        Some(rows) => {
            proof {
                lemma_row_views(rows@);
            }
            Table::from_rows(rows)
        },
        None => None,
    }
}

/// Table text reads back as the same rows, which stand for the same map.
pub proof fn lemma_table_round_trip<K: TextKey, V: Record>(t: Table<K, V>)
    requires
        t.wf(),
    ensures
        parse_table::<K, V>(table_text::<K, V>(all_views(t.rows@))) == Some(all_views(t.rows@)),
        view_map(all_views(t.rows@)) == t@,
        lacks(table_text::<K, V>(all_views(t.rows@)), SECTION_SEP),
{
    lemma_lines_round_trip::<(K, V)>(all_views(t.rows@));
    lemma_row_views(t.rows@);
}

} // verus!
