//! Decoding of `key=value&key=value...` text into a list of keyed small integers.

use vstd::prelude::*;

use crate::text::{chars_of, split, split_chars, views};

verus! {

/// The ways in which turning a submission into a group can fail.
#[derive(Debug, Clone, Copy, PartialEq, Eq, Structural)]
pub enum Error {
    /// The body is malformed or incomplete.
    InvalidInput,
    /// The body is longer than the size ceiling.
    TooLarge,
    /// The transport could not deliver the body.
    Io,
}

pub open spec fn is_digit(c: char) -> bool {
    '0' <= c && c <= '9'
}

pub open spec fn all_digits(s: Seq<char>) -> bool {
    forall|i: int| 0 <= i < s.len() ==> is_digit(#[trigger] s[i])
}

pub open spec fn digit_value(c: char) -> nat {
    ((c as u32) - ('0' as u32)) as nat
}

/// The number written by the decimal digits `s`, most significant first.
pub open spec fn digits_value(s: Seq<char>) -> nat
    decreases s.len(),
{
    if s.len() == 0 {
        0
    } else {
        digits_value(s.drop_last()) * 10 + digit_value(s.last())
    }
}

/// The value of `s` as a decimal number in `0..=255`: one or more digits, nothing else.
pub open spec fn parse_u8(s: Seq<char>) -> Option<u8> {
    if s.len() > 0 && all_digits(s) && digits_value(s) <= 255 {
        Some(digits_value(s) as u8)
    } else {
        None
    }
}

/// Reads `s` as a decimal number in `0..=255`.
pub fn parse_value(s: &[char]) -> (r: Option<u8>)
    ensures
        r == parse_u8(s@),
{
    if s.len() == 0 {
        return None;
    }
    let mut acc: u32 = 0;
    let mut i: usize = 0;
    assert(s@.take(0) =~= Seq::<char>::empty());
    while i < s.len()
        invariant
            i <= s@.len(),
            all_digits(s@.take(i as int)),
            acc as nat == if digits_value(s@.take(i as int)) < 256 {
                digits_value(s@.take(i as int))
            } else {
                256
            },
        decreases s.len() - i,
    {
        let c = s[i];
        if !('0' <= c && c <= '9') {
            assert(!is_digit(s@[i as int]));
            return None;
        }
        let ghost prev = s@.take(i as int);
        let ghost next = s@.take(i + 1);
        assert(next.drop_last() =~= prev);
        assert(digits_value(next) == digits_value(prev) * 10 + digit_value(c));
        let d: u32 = (c as u32) - ('0' as u32);
        acc = acc * 10 + d;
        if acc > 256 {
            acc = 256;
        }
        i += 1;
        assert forall|j: int| 0 <= j < next.len() implies is_digit(#[trigger] next[j]) by {
            if j < prev.len() {
                assert(next[j] == prev[j]);
            }
        }
    }
    assert(s@.take(i as int) =~= s@);
    if acc <= 255 {
        Some(acc as u8)
    } else {
        None
    }
}

/// The (key, value) pairs, as views.
pub open spec fn pair_views(p: Seq<(Vec<char>, u8)>) -> Seq<(Seq<char>, u8)> {
    p.map_values(|e: (Vec<char>, u8)| (e.0@, e.1))
}

/// The mapping that the pairs `p` give when a later pair overrides an earlier one of the same key.
pub open spec fn pairs_map<V>(p: Seq<(Seq<char>, V)>) -> Map<Seq<char>, V>
    decreases p.len(),
{
    if p.len() == 0 {
        Map::empty()
    } else {
        pairs_map(p.drop_last()).insert(p.last().0, p.last().1)
    }
}

pub proof fn lemma_pairs_map_last<V>(p: Seq<(Seq<char>, V)>, k: Seq<char>, i: int)
    requires
        0 <= i < p.len(),
        p[i].0 == k,
        forall|j: int| i < j < p.len() ==> p[j].0 != k,
    ensures
        pairs_map(p).contains_key(k),
        pairs_map(p)[k] == p[i].1,
    decreases p.len(),
{
    if i < p.len() - 1 {
        lemma_pairs_map_last(p.drop_last(), k, i);
    }
}

pub proof fn lemma_pairs_map_dom<V>(p: Seq<(Seq<char>, V)>)
    ensures
        pairs_map(p).dom() == p.map_values(|e: (Seq<char>, V)| e.0).to_set(),
    decreases p.len(),
{
    let ks = p.map_values(|e: (Seq<char>, V)| e.0);
    if p.len() > 0 {
        let q = p.drop_last();
        lemma_pairs_map_dom(q);
        let kq = q.map_values(|e: (Seq<char>, V)| e.0);
        assert(ks =~= kq.push(p.last().0));
        assert forall|k: Seq<char>| ks.to_set().contains(k) <==> #[trigger] pairs_map(
            p,
        ).dom().contains(k) by {
            if ks.contains(k) {
                let j = choose|j: int| 0 <= j < ks.len() && ks[j] == k;
                if j < kq.len() {
                    assert(kq[j] == k);
                }
            }
            if kq.contains(k) {
                let j = choose|j: int| 0 <= j < kq.len() && kq[j] == k;
                assert(ks[j] == k);
            }
            if k == p.last().0 {
                assert(ks[ks.len() - 1] == k);
            }
        }
        assert(pairs_map(p).dom() =~= ks.to_set());
    } else {
        assert(pairs_map(p).dom() =~= ks.to_set());
    }
}

/// Decoded (key, value) pairs, in the order of the text; a later pair of a key wins.
#[derive(Debug)]
pub struct FieldMap {
    pub pairs: Vec<(Vec<char>, u8)>,
}

impl View for FieldMap {
    type V = Map<Seq<char>, u8>;

    open spec fn view(&self) -> Map<Seq<char>, u8> {
        pairs_map(pair_views(self.pairs@))
    }
}

/// Whether two character slices are equal.
pub fn chars_eq(a: &[char], b: &[char]) -> (r: bool)
    ensures
        r == (a@ == b@),
{
    if a.len() != b.len() {
        return false;
    }
    let mut i: usize = 0;
    while i < a.len()
        invariant
            i <= a@.len(),
            a@.len() == b@.len(),
            forall|j: int| 0 <= j < i ==> a@[j] == b@[j],
        decreases a.len() - i,
    {
        if a[i] != b[i] {
            return false;
        }
        i += 1;
    }
    assert(a@ =~= b@);
    true
}

impl FieldMap {
    /// The value of `key`: that of its last pair.
    pub fn get(&self, key: &[char]) -> (r: Option<u8>)
        ensures
            r == (if self@.contains_key(key@) {
                Some(self@[key@])
            } else {
                None
            }),
    {
        let ghost pv = pair_views(self.pairs@);
        let mut i: usize = self.pairs.len();
        while i > 0
            invariant
                i <= self.pairs@.len(),
                pv == pair_views(self.pairs@),
                forall|j: int| i <= j < pv.len() ==> pv[j].0 != key@,
            decreases i,
        {
            i -= 1;
            if chars_eq(&self.pairs[i].0, key) {
                proof {
                    lemma_pairs_map_last(pv, key@, i as int);
                }
                return Some(self.pairs[i].1);
            }
        }
        proof {
            lemma_pairs_map_dom(pv);
            let ks = pv.map_values(|e: (Seq<char>, u8)| e.0);
            if ks.contains(key@) {
                let j = choose|j: int| 0 <= j < ks.len() && ks[j] == key@;
                assert(pv[j].0 == key@);
            }
        }
        None
    }

    /// Whether `key` has a pair.
    pub fn contains_key(&self, key: &[char]) -> (r: bool)
        ensures
            r == self@.contains_key(key@),
    {
        self.get(key).is_some()
    }
}

/// The items of a body: its `&`-separated pieces; an empty body has none.
pub open spec fn items(s: Seq<char>) -> Seq<Seq<char>> {
    if s.len() == 0 {
        Seq::empty()
    } else {
        split(s, '&')
    }
}

/// An item `key=value`, with `value` a decimal number in `0..=255`.
pub open spec fn parse_item(it: Seq<char>) -> Option<(Seq<char>, u8)> {
    let parts = split(it, '=');
    if parts.len() == 2 {
        match parse_u8(parts[1]) {
            Some(v) => Some((parts[0], v)),
            None => None,
        }
    } else {
        None
    }
}

/// The pairs of the items `its`, or `None` where one of them is malformed.
pub open spec fn parse_items(its: Seq<Seq<char>>) -> Option<Seq<(Seq<char>, u8)>>
    decreases its.len(),
{
    if its.len() == 0 {
        Some(Seq::empty())
    } else {
        match (parse_items(its.drop_last()), parse_item(its.last())) {
            (Some(p), Some(e)) => Some(p.push(e)),
            _ => None,
        }
    }
}

/// The pairs of a body, in order, or `None` where it is malformed.
pub open spec fn decode(s: Seq<char>) -> Option<Seq<(Seq<char>, u8)>> {
    parse_items(items(s))
}

pub proof fn lemma_parse_items_prefix(its: Seq<Seq<char>>, i: int)
    requires
        0 <= i <= its.len(),
        parse_items(its.take(i)) is None,
    ensures
        parse_items(its) is None,
    decreases its.len(),
{
    if i < its.len() {
        assert(its.drop_last().take(i) =~= its.take(i));
        lemma_parse_items_prefix(its.drop_last(), i);
    } else {
        assert(its.take(i) =~= its);
    }
}

/// Decodes a body into its pairs. An empty body has none; any item that is not
/// `key=value` with a decimal `value` in `0..=255` makes the body invalid.
pub fn data_into_hashmap(data: &str) -> (r: Result<FieldMap, Error>)
    ensures
        r is Ok <==> decode(data@) is Some,
        r is Ok ==> pair_views(r->Ok_0.pairs@) == decode(data@)->Some_0,
        r is Err ==> r->Err_0 == Error::InvalidInput,
{
    let chars = chars_of(data);
    let mut pairs: Vec<(Vec<char>, u8)> = Vec::new();
    if chars.len() == 0 {
        assert(pair_views(pairs@) =~= Seq::empty());
        return Ok(FieldMap { pairs });
    }
    let its = split_chars(&chars, '&');
    let ghost iv = views(its@);
    let mut i: usize = 0;
    assert(iv.take(0) =~= Seq::<Seq<char>>::empty());
    assert(pair_views(pairs@) =~= Seq::empty());
    while i < its.len()
        invariant
            i <= its@.len(),
            iv == views(its@),
            iv == items(data@),
            parse_items(iv.take(i as int)) == Some(pair_views(pairs@)),
        decreases its.len() - i,
    {
        let ghost next = iv.take(i + 1);
        assert(next.drop_last() =~= iv.take(i as int));
        assert(next.last() == its@[i as int]@);
        let mut parts = split_chars(&its[i], '=');
        if parts.len() != 2 {
            proof {
                lemma_parse_items_prefix(iv, i + 1);
            }
            return Err(Error::InvalidInput);
        }
        assert(views(parts@)[1] == parts@[1]@);
        let value = match parse_value(&parts[1]) {
            Some(v) => v,
            None => {
                proof {
                    lemma_parse_items_prefix(iv, i + 1);
                }
                return Err(Error::InvalidInput);
            },
        };
        assert(views(parts@)[0] == parts@[0]@);
        let key = parts.remove(0);
        let ghost old_pairs = pairs@;
        pairs.push((key, value));
        assert(pair_views(pairs@) =~= pair_views(old_pairs).push((key@, value)));
        i += 1;
    }
    assert(iv.take(i as int) =~= iv);
    Ok(FieldMap { pairs })
}

} // verus!
