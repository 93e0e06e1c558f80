//! A group written back as a body of its items, and the law that such a body
//! builds the same group.

use vstd::prelude::*;

use crate::decode::{
    all_digits, decode, digit_value, digits_value, items, lemma_pairs_map_dom, pairs_map,
    parse_item, parse_items, parse_u8,
};
use crate::group::{
    complete, given_suffix, group_of, group_spec, keys_named, lemma_group_complete, name_of,
    names, record_of,
    taken_suffix, wins_suffix,
};
use crate::form::{decimal, digit_char};
use crate::text::{lemma_split_len, split};

verus! {

/// No character of `s` is `c`.
pub open spec fn free_of(s: Seq<char>, c: char) -> bool {
    forall|i: int| 0 <= i < s.len() ==> s[i] != c
}

/// The pieces `its` with `d` between each two of them.
pub open spec fn join(its: Seq<Seq<char>>, d: char) -> Seq<char>
    decreases its.len(),
{
    if its.len() == 0 {
        Seq::empty()
    } else if its.len() == 1 {
        its[0]
    } else {
        join(its.drop_last(), d) + seq![d] + its.last()
    }
}

proof fn lemma_free_of_concat(a: Seq<char>, b: Seq<char>, c: char)
    requires
        free_of(a, c),
        free_of(b, c),
    ensures
        free_of(a + b, c),
{
    assert forall|i: int| 0 <= i < (a + b).len() implies (a + b)[i] != c by {
        if i < a.len() {
            assert((a + b)[i] == a[i]);
        } else {
            assert((a + b)[i] == b[i - a.len()]);
        }
    }
}

proof fn lemma_split_free(x: Seq<char>, d: char)
    requires
        free_of(x, d),
    ensures
        split(x, d) == seq![x],
    decreases x.len(),
{
    if x.len() > 0 {
        lemma_split_free(x.drop_last(), d);
        assert(x.drop_last().push(x.last()) =~= x);
        assert(split(x, d) =~= seq![x]);
    } else {
        assert(x =~= Seq::<char>::empty());
    }
}

proof fn lemma_split_concat(a: Seq<char>, b: Seq<char>, d: char)
    ensures
        split(a + seq![d] + b, d) == split(a, d) + split(b, d),
    decreases b.len(),
{
    let s = a + seq![d] + b;
    if b.len() == 0 {
        assert(s.drop_last() =~= a);
        assert(split(b, d) =~= seq![Seq::<char>::empty()]);
        assert(split(s, d) =~= split(a, d) + split(b, d));
    } else {
        let b0 = b.drop_last();
        lemma_split_concat(a, b0, d);
        lemma_split_len(b0, d);
        lemma_split_len(a, d);
        assert(s.drop_last() =~= a + seq![d] + b0);
        assert(s.last() == b.last());
        assert(split(s, d) =~= split(a, d) + split(b, d));
    }
}

proof fn lemma_split_join(its: Seq<Seq<char>>, d: char)
    requires
        its.len() >= 1,
        forall|i: int| 0 <= i < its.len() ==> free_of(#[trigger] its[i], d),
    ensures
        split(join(its, d), d) == its,
    decreases its.len(),
{
    if its.len() == 1 {
        lemma_split_free(its[0], d);
        assert(seq![its[0]] =~= its);
    } else {
        let q = its.drop_last();
        lemma_split_join(q, d);
        lemma_split_concat(join(q, d), its.last(), d);
        lemma_split_free(its.last(), d);
        assert(its[its.len() - 1] == its.last());
        assert(q + seq![its.last()] =~= its);
    }
}

/// The pieces of a split hold no delimiter, and no character that `s` lacks.
proof fn lemma_split_pieces_free(s: Seq<char>, d: char, c: char)
    ensures
        forall|i: int| 0 <= i < split(s, d).len() ==> free_of(#[trigger] split(s, d)[i], d),
        free_of(s, c) ==> forall|i: int|
            0 <= i < split(s, d).len() ==> free_of(#[trigger] split(s, d)[i], c),
    decreases s.len(),
{
    if s.len() > 0 {
        let q = s.drop_last();
        lemma_split_pieces_free(q, d, c);
        lemma_split_len(q, d);
        let p = split(q, d);
        if s.last() != d {
            let l = p.last().push(s.last());
            assert(free_of(p[p.len() - 1], d));
            assert(free_of(l, d)) by {
                assert forall|j: int| 0 <= j < l.len() implies l[j] != d by {
                    if j < p.last().len() {
                        assert(l[j] == p[p.len() - 1][j]);
                    }
                }
            }
            if free_of(s, c) {
                assert(free_of(q, c));
                assert(free_of(p[p.len() - 1], c));
                assert forall|j: int| 0 <= j < l.len() implies l[j] != c by {
                    if j < p.last().len() {
                        assert(l[j] == p[p.len() - 1][j]);
                    } else {
                        assert(s[s.len() - 1] != c);
                    }
                }
            }
            assert forall|i: int| 0 <= i < split(s, d).len() implies free_of(
                #[trigger] split(s, d)[i],
                d,
            ) by {
                if i < p.len() - 1 {
                    assert(split(s, d)[i] == p[i]);
                }
            }
            if free_of(s, c) {
                assert forall|i: int| 0 <= i < split(s, d).len() implies free_of(
                    #[trigger] split(s, d)[i],
                    c,
                ) by {
                    if i < p.len() - 1 {
                        assert(split(s, d)[i] == p[i]);
                    }
                }
            }
        } else {
            assert forall|i: int| 0 <= i < split(s, d).len() implies free_of(
                #[trigger] split(s, d)[i],
                d,
            ) by {
                if i < p.len() {
                    assert(split(s, d)[i] == p[i]);
                }
            }
            if free_of(s, c) {
                assert(free_of(q, c));
                assert forall|i: int| 0 <= i < split(s, d).len() implies free_of(
                    #[trigger] split(s, d)[i],
                    c,
                ) by {
                    if i < p.len() {
                        assert(split(s, d)[i] == p[i]);
                    }
                }
            }
        }
    }
}

proof fn lemma_digit(d: nat)
    requires
        d < 10,
    ensures
        digit_value(digit_char(d)) == d,
        '0' <= digit_char(d) <= '9',
{
    assert(digit_value('0') == 0);
    assert(digit_value('1') == 1);
    assert(digit_value('2') == 2);
    assert(digit_value('3') == 3);
    assert(digit_value('4') == 4);
    assert(digit_value('5') == 5);
    assert(digit_value('6') == 6);
    assert(digit_value('7') == 7);
    assert(digit_value('8') == 8);
    assert(digit_value('9') == 9);
}

/// Decimal text reads back as the number it writes.
proof fn lemma_decimal(n: nat)
    ensures
        decimal(n).len() > 0,
        all_digits(decimal(n)),
        digits_value(decimal(n)) == n,
    decreases n,
{
    let s = decimal(n);
    if n < 10 {
        lemma_digit(n);
        assert(s.drop_last() =~= Seq::<char>::empty());
        assert(digits_value(s.drop_last()) == 0);
        assert(s.last() == digit_char(n));
    } else {
        lemma_decimal(n / 10);
        lemma_digit(n % 10);
        assert(s.drop_last() =~= decimal(n / 10));
        assert(s.last() == digit_char(n % 10));
        assert(digits_value(s) == (n / 10) * 10 + n % 10);
        assert((n / 10) * 10 + n % 10 == n) by (nonlinear_arith);
        assert forall|i: int| 0 <= i < s.len() implies '0' <= #[trigger] s[i] && s[i] <= '9' by {
            if i < s.len() - 1 {
                assert(s[i] == decimal(n / 10)[i]);
            }
        }
    }
}

proof fn lemma_parse_decimal(v: u8)
    ensures
        parse_u8(decimal(v as nat)) == Some(v),
        free_of(decimal(v as nat), '='),
        free_of(decimal(v as nat), '&'),
{
    lemma_decimal(v as nat);
    let s = decimal(v as nat);
    assert forall|i: int| 0 <= i < s.len() implies s[i] != '=' && s[i] != '&' by {
        assert('0' <= s[i] <= '9');
    }
}

/// The item `key=value` of one field of fencer `n`.
pub open spec fn field_item(n: Seq<char>, sfx: Seq<char>, v: u8) -> Seq<char> {
    n + sfx + seq!['='] + decimal(v as nat)
}

/// A name that can stand in a key: not empty, and free of the separators.
pub open spec fn plain_name(n: Seq<char>) -> bool {
    n.len() > 0 && free_of(n, '_') && free_of(n, '=') && free_of(n, '&')
}

proof fn lemma_suffixes()
    ensures
        free_of(wins_suffix(), '=') && free_of(wins_suffix(), '&'),
        free_of(given_suffix(), '=') && free_of(given_suffix(), '&'),
        free_of(taken_suffix(), '=') && free_of(taken_suffix(), '&'),
        wins_suffix() != given_suffix(),
        wins_suffix() != taken_suffix(),
        given_suffix() != taken_suffix(),
{
    assert(given_suffix()[1] != taken_suffix()[1]);
}

proof fn lemma_append_cancel(n: Seq<char>, a: Seq<char>, b: Seq<char>)
    requires
        n + a == n + b,
    ensures
        a == b,
{
    assert(a =~= (n + a).subrange(n.len() as int, (n + a).len() as int));
    assert(b =~= (n + b).subrange(n.len() as int, (n + b).len() as int));
}

/// A key made of a plain name and a suffix belongs to that name.
proof fn lemma_name_of_key(n: Seq<char>, sfx: Seq<char>)
    requires
        plain_name(n),
        sfx.len() > 0,
        sfx[0] == '_',
    ensures
        name_of(n + sfx) == Some(n),
{
    let rest = sfx.drop_first();
    assert(n + sfx =~= n + seq!['_'] + rest);
    lemma_split_concat(n, rest, '_');
    lemma_split_free(n, '_');
    lemma_split_len(rest, '_');
}

proof fn lemma_field_item(n: Seq<char>, sfx: Seq<char>, v: u8)
    requires
        plain_name(n),
        free_of(sfx, '='),
        free_of(sfx, '&'),
    ensures
        parse_item(field_item(n, sfx, v)) == Some((n + sfx, v)),
        free_of(field_item(n, sfx, v), '&'),
{
    let key = n + sfx;
    lemma_free_of_concat(n, sfx, '=');
    lemma_free_of_concat(n, sfx, '&');
    lemma_parse_decimal(v);
    lemma_split_concat(key, decimal(v as nat), '=');
    lemma_split_free(key, '=');
    lemma_split_free(decimal(v as nat), '=');
    assert(split(field_item(n, sfx, v), '=') =~= seq![key, decimal(v as nat)]);
    assert(free_of(seq!['='], '&'));
    lemma_free_of_concat(key, seq!['='], '&');
    lemma_free_of_concat(key + seq!['='], decimal(v as nat), '&');
}

/// Keys of two different plain names never meet.
proof fn lemma_keys_apart(x: Seq<char>, n: Seq<char>, a: Seq<char>, b: Seq<char>)
    requires
        plain_name(x),
        plain_name(n),
        a.len() > 0 && a[0] == '_',
        b.len() > 0 && b[0] == '_',
        x + a == n + b,
    ensures
        x == n,
        a == b,
{
    lemma_name_of_key(x, a);
    lemma_name_of_key(n, b);
    lemma_append_cancel(n, a, b);
}

proof fn lemma_suffix_starts()
    ensures
        wins_suffix().len() > 0 && wins_suffix()[0] == '_',
        given_suffix().len() > 0 && given_suffix()[0] == '_',
        taken_suffix().len() > 0 && taken_suffix()[0] == '_',
{
}

/// The decoded pairs' keys, and so the fencers' names, hold no separator.
proof fn lemma_names_plain(s: Seq<char>)
    requires
        decode(s) is Some,
    ensures
        forall|n: Seq<char>| #[trigger]
            names(pairs_map(decode(s)->Some_0)).contains(n) ==> plain_name(n),
{
    let its = items(s);
    let p = decode(s)->Some_0;
    let m = pairs_map(p);
    lemma_parse_items_each(its);
    lemma_pairs_map_dom(p);
    assert forall|n: Seq<char>| #[trigger] names(m).contains(n) implies plain_name(n) by {
        let k = choose|k: Seq<char>| #[trigger] m.contains_key(k) && name_of(k) == Some(n);
        let ks = p.map_values(|e: (Seq<char>, u8)| e.0);
        assert(ks.to_set().contains(k));
        let j = choose|j: int| 0 <= j < ks.len() && ks[j] == k;
        let it = its[j];
        lemma_split_pieces_free(s, '&', '&');
        assert(free_of(it, '&'));
        lemma_split_pieces_free(it, '=', '&');
        assert(k == split(it, '=')[0]);
        assert(free_of(k, '=') && free_of(k, '&'));
        lemma_split_pieces_free(k, '_', '=');
        lemma_split_pieces_free(k, '_', '&');
        assert(n == split(k, '_')[0]);
    }
}

proof fn lemma_parse_items_each(its: Seq<Seq<char>>)
    requires
        parse_items(its) is Some,
    ensures
        parse_items(its)->Some_0.len() == its.len(),
        forall|j: int|
            0 <= j < its.len() ==> parse_item(#[trigger] its[j]) == Some(
                parse_items(its)->Some_0[j],
            ),
    decreases its.len(),
{
    if its.len() > 0 {
        let q = its.drop_last();
        lemma_parse_items_each(q);
        assert forall|j: int| 0 <= j < its.len() implies parse_item(#[trigger] its[j]) == Some(
            parse_items(its)->Some_0[j],
        ) by {
            if j < q.len() {
                assert(its[j] == q[j]);
            }
        }
    }
}

/// The suffix of field `f`: wins, points given, points taken.
pub open spec fn suffix(f: int) -> Seq<char> {
    if f == 0 {
        wins_suffix()
    } else if f == 1 {
        given_suffix()
    } else {
        taken_suffix()
    }
}

/// The value of field `f` in record `r`.
pub open spec fn field(r: (u8, u8, u8), f: int) -> u8 {
    if f == 0 {
        r.0
    } else if f == 1 {
        r.1
    } else {
        r.2
    }
}

/// `it` is one of the items of group `g`: `name_wins=W`, `name_given=G` or
/// `name_taken=T` of one of its fencers.
pub open spec fn is_group_item(g: Map<Seq<char>, (u8, u8, u8)>, it: Seq<char>) -> bool {
    exists|n: Seq<char>, f: int|
        g.contains_key(n) && 0 <= f < 3 && it == #[trigger] field_item(n, suffix(f), field(g[n], f))
}

/// `e` is one of the pairs of group `g`.
pub open spec fn is_group_pair(g: Map<Seq<char>, (u8, u8, u8)>, e: (Seq<char>, u8)) -> bool {
    exists|n: Seq<char>, f: int|
        g.contains_key(n) && 0 <= f < 3 && e == (#[trigger] (n + suffix(f)), field(g[n], f))
}

pub open spec fn plain_names(g: Map<Seq<char>, (u8, u8, u8)>) -> bool {
    forall|n: Seq<char>| #[trigger] g.contains_key(n) ==> plain_name(n)
}

proof fn lemma_suffix(f: int)
    requires
        0 <= f < 3,
    ensures
        suffix(f).len() > 0 && suffix(f)[0] == '_',
        free_of(suffix(f), '=') && free_of(suffix(f), '&'),
        forall|f2: int| 0 <= f2 < 3 && suffix(f2) == suffix(f) ==> f2 == f,
{
    lemma_suffixes();
    lemma_suffix_starts();
}

proof fn lemma_group_item(g: Map<Seq<char>, (u8, u8, u8)>, it: Seq<char>)
    requires
        plain_names(g),
        is_group_item(g, it),
    ensures
        parse_item(it) is Some,
        is_group_pair(g, parse_item(it)->Some_0),
        free_of(it, '&'),
        it.len() > 0,
{
    let (n, f) = choose|n: Seq<char>, f: int|
        g.contains_key(n) && 0 <= f < 3 && it == #[trigger] field_item(
            n,
            suffix(f),
            field(g[n], f),
        );
    lemma_suffix(f);
    lemma_field_item(n, suffix(f), field(g[n], f));
    assert(parse_item(it)->Some_0 == (n + suffix(f), field(g[n], f)));
    assert(it[(n + suffix(f)).len() as int] == '=');
}

proof fn lemma_parse_items_all(its: Seq<Seq<char>>)
    requires
        forall|i: int| 0 <= i < its.len() ==> parse_item(#[trigger] its[i]) is Some,
    ensures
        parse_items(its) is Some,
    decreases its.len(),
{
    if its.len() > 0 {
        let q = its.drop_last();
        assert forall|i: int| 0 <= i < q.len() implies parse_item(#[trigger] q[i]) is Some by {
            assert(q[i] == its[i]);
        }
        lemma_parse_items_all(q);
        assert(parse_item(its[its.len() - 1]) is Some);
    }
}

proof fn lemma_pairs_map_uniform(p: Seq<(Seq<char>, u8)>, k: Seq<char>, v: u8, i: int)
    requires
        0 <= i < p.len(),
        p[i].0 == k,
        forall|j: int| 0 <= j < p.len() && (#[trigger] p[j]).0 == k ==> p[j].1 == v,
    ensures
        pairs_map(p).contains_key(k),
        pairs_map(p)[k] == v,
    decreases p.len(),
{
    let q = p.drop_last();
    if p.last().0 == k {
        assert(p[p.len() - 1] == p.last());
    } else {
        assert(i < p.len() - 1);
        assert forall|j: int| 0 <= j < q.len() && (#[trigger] q[j]).0 == k implies q[j].1 == v by {
            assert(q[j] == p[j]);
        }
        lemma_pairs_map_uniform(q, k, v, i);
    }
}

/// A body that lists items of group `g` decodes to pairs of `g`, one per item.
proof fn lemma_items_decode(g: Map<Seq<char>, (u8, u8, u8)>, its: Seq<Seq<char>>)
    requires
        plain_names(g),
        forall|i: int| 0 <= i < its.len() ==> is_group_item(g, #[trigger] its[i]),
    ensures
        decode(join(its, '&')) is Some,
        decode(join(its, '&'))->Some_0.len() == its.len(),
        forall|i: int|
            0 <= i < its.len() ==> parse_item(#[trigger] its[i]) == Some(
                decode(join(its, '&'))->Some_0[i],
            ),
        forall|j: int|
            0 <= j < its.len() ==> is_group_pair(g, #[trigger] decode(join(its, '&'))->Some_0[j]),
{
    assert forall|i: int| 0 <= i < its.len() implies parse_item(#[trigger] its[i]) is Some
        && is_group_pair(g, parse_item(its[i])->Some_0) && free_of(its[i], '&') && its[i].len()
        > 0 by {
        lemma_group_item(g, its[i]);
    }
    lemma_parse_items_all(its);
    lemma_parse_items_each(its);
    let e = join(its, '&');
    if its.len() > 0 {
        lemma_split_join(its, '&');
        if its.len() > 1 {
            assert(e == join(its.drop_last(), '&') + seq!['&'] + its.last());
        }
        assert(e.len() > 0);
        assert(items(e) == its);
    } else {
        assert(items(e) =~= its);
    }
    let p = parse_items(its)->Some_0;
    assert forall|j: int| 0 <= j < its.len() implies is_group_pair(g, #[trigger] p[j]) by {
        assert(parse_item(its[j]) == Some(p[j]));
    }
}

/// Each key of pairs of `g` belongs to a fencer of `g`.
proof fn lemma_pairs_key(g: Map<Seq<char>, (u8, u8, u8)>, p: Seq<(Seq<char>, u8)>, k: Seq<char>)
    requires
        plain_names(g),
        forall|j: int| 0 <= j < p.len() ==> is_group_pair(g, #[trigger] p[j]),
        pairs_map(p).contains_key(k),
    ensures
        name_of(k) is Some,
        g.contains_key(name_of(k)->Some_0),
{
    let ks = p.map_values(|e: (Seq<char>, u8)| e.0);
    lemma_pairs_map_dom(p);
    assert(ks.to_set().contains(k));
    let j = choose|j: int| 0 <= j < ks.len() && ks[j] == k;
    assert(is_group_pair(g, p[j]));
    let (n, f) = choose|n: Seq<char>, f: int|
        g.contains_key(n) && 0 <= f < 3 && p[j] == (#[trigger] (n + suffix(f)), field(g[n], f));
    lemma_suffix(f);
    lemma_name_of_key(n, suffix(f));
}

/// Among pairs of `g`, the key of field `f` of fencer `n` maps to that field's value.
proof fn lemma_pairs_field(
    g: Map<Seq<char>, (u8, u8, u8)>,
    p: Seq<(Seq<char>, u8)>,
    n: Seq<char>,
    f: int,
    i: int,
)
    requires
        plain_names(g),
        forall|j: int| 0 <= j < p.len() ==> is_group_pair(g, #[trigger] p[j]),
        g.contains_key(n),
        0 <= f < 3,
        0 <= i < p.len(),
        p[i] == (n + suffix(f), field(g[n], f)),
    ensures
        pairs_map(p).contains_key(n + suffix(f)),
        pairs_map(p)[n + suffix(f)] == field(g[n], f),
{
    lemma_suffix(f);
    assert forall|j: int| 0 <= j < p.len() && (#[trigger] p[j]).0 == n + suffix(f) implies p[j].1
        == field(g[n], f) by {
        assert(is_group_pair(g, p[j]));
        let (n2, f2) = choose|n2: Seq<char>, f2: int|
            g.contains_key(n2) && 0 <= f2 < 3 && p[j] == (#[trigger] (n2 + suffix(f2)), field(
                g[n2],
                f2,
            ));
        lemma_suffix(f2);
        lemma_keys_apart(n2, n, suffix(f2), suffix(f));
    }
    lemma_pairs_map_uniform(p, n + suffix(f), field(g[n], f), i);
}

/// Pairs decoded from items that cover group `g` hold each field of each fencer.
proof fn lemma_field_read(
    g: Map<Seq<char>, (u8, u8, u8)>,
    its: Seq<Seq<char>>,
    p: Seq<(Seq<char>, u8)>,
    n: Seq<char>,
    f: int,
)
    requires
        plain_names(g),
        p.len() == its.len(),
        forall|i: int| 0 <= i < its.len() ==> parse_item(#[trigger] its[i]) == Some(p[i]),
        forall|j: int| 0 <= j < p.len() ==> is_group_pair(g, #[trigger] p[j]),
        forall|n: Seq<char>, f: int|
            g.contains_key(n) && 0 <= f < 3 ==> its.contains(
                #[trigger] field_item(n, suffix(f), field(g[n], f)),
            ),
        g.contains_key(n),
        0 <= f < 3,
    ensures
        pairs_map(p).contains_key(n + suffix(f)),
        pairs_map(p)[n + suffix(f)] == field(g[n], f),
{
    let it = field_item(n, suffix(f), field(g[n], f));
    assert(its.contains(it));
    let i = choose|i: int| 0 <= i < its.len() && its[i] == it;
    lemma_suffix(f);
    lemma_field_item(n, suffix(f), field(g[n], f));
    assert(parse_item(its[i]) == Some(p[i]));
    lemma_pairs_field(g, p, n, f, i);
}

/// Pairs decoded from items that cover group `g` give back `g`.
proof fn lemma_pairs_group(
    g: Map<Seq<char>, (u8, u8, u8)>,
    its: Seq<Seq<char>>,
    p: Seq<(Seq<char>, u8)>,
)
    requires
        plain_names(g),
        p.len() == its.len(),
        forall|i: int| 0 <= i < its.len() ==> parse_item(#[trigger] its[i]) == Some(p[i]),
        forall|j: int| 0 <= j < p.len() ==> is_group_pair(g, #[trigger] p[j]),
        forall|n: Seq<char>, f: int|
            g.contains_key(n) && 0 <= f < 3 ==> its.contains(
                #[trigger] field_item(n, suffix(f), field(g[n], f)),
            ),
    ensures
        keys_named(pairs_map(p)),
        forall|n: Seq<char>| #[trigger]
            names(pairs_map(p)).contains(n) ==> complete(pairs_map(p), n),
        group_of(pairs_map(p)) == g,
{
    let m = pairs_map(p);
    assert forall|n: Seq<char>| g.contains_key(n) implies #[trigger] complete(m, n) && record_of(m, n)
        == g[n] by {
        lemma_field_read(g, its, p, n, 0);
        lemma_field_read(g, its, p, n, 1);
        lemma_field_read(g, its, p, n, 2);
    }
    assert forall|k: Seq<char>| #[trigger] m.contains_key(k) implies name_of(k) is Some
        && g.contains_key(name_of(k)->Some_0) by {
        lemma_pairs_key(g, p, k);
    }
    assert forall|n: Seq<char>| #[trigger] names(m).contains(n) <==> g.contains_key(n) by {
        if g.contains_key(n) {
            lemma_suffix(0);
            lemma_name_of_key(n, suffix(0));
            lemma_field_read(g, its, p, n, 0);
            assert(m.contains_key(n + suffix(0)));
        }
        if names(m).contains(n) {
            let k = choose|k: Seq<char>| #[trigger] m.contains_key(k) && name_of(k) == Some(n);
        }
    }
    assert(keys_named(m));
    assert forall|n: Seq<char>| #[trigger] names(m).contains(n) implies complete(m, n) by {
        assert(complete(m, n));
    }
    assert(group_of(m) =~= g);
}

/// Round trip: a body that lists the items of a group built from a body
/// (`name_wins=W`, `name_given=G` and `name_taken=T` of each fencer), in any
/// order and each at least once, builds the same group.
pub proof fn lemma_round_trip(s: Seq<char>, its: Seq<Seq<char>>)
    requires
        group_spec(s) is Some,
        forall|i: int| 0 <= i < its.len() ==> is_group_item(group_spec(s)->Some_0, #[trigger] its[i]),
        forall|n: Seq<char>, f: int|
            group_spec(s)->Some_0.contains_key(n) && 0 <= f < 3 ==> its.contains(
                #[trigger] field_item(n, suffix(f), field(group_spec(s)->Some_0[n], f)),
            ),
    ensures
        group_spec(join(its, '&')) == group_spec(s),
{
    let g = group_spec(s)->Some_0;
    lemma_names_plain(s);
    lemma_group_complete(s);
    assert(plain_names(g));
    lemma_items_decode(g, its);
    let p = decode(join(its, '&'))->Some_0;
    lemma_pairs_group(g, its, p);
}

} // verus!
