//! Bencode: the value type, the decoder and the encoder.
//!
//! A dictionary keeps its entries in the order in which their keys first appeared; a key
//! occurs at most once, and inserting a key that is present replaces its value in place.
use crate::text::{all_digits, decimal, digits_value, int_decimal, is_digit, push_decimal, push_int, lemma_decimal_digits, lemma_digits_value_push, string_from_utf8};
use vstd::prelude::*;
use vstd::utf8::*;

verus! {

broadcast use {vstd::utf8::encode_utf8_valid_utf8, vstd::utf8::encode_utf8_decode_utf8};

/// The mathematical value of a bencode entry.
pub enum Value {
    Bytes(Seq<u8>),
    Int(int),
    List(Seq<Value>),
    Dict(Seq<(Seq<char>, Value)>),
}

/// A bencode entry.
#[derive(Debug)]
pub enum Entry {
    String(Vec<u8>),
    Integer(i64),
    List(Vec<Entry>),
    Dict(Dict),
}

/// A dictionary: its entries in the order in which their keys first came, each key once.
#[derive(Debug)]
pub struct Dict {
    entries: Vec<(String, Entry)>,
}

/// Why a byte sequence is not bencode.
#[derive(Clone, Copy, Debug, PartialEq, Eq)]
pub enum BencodeError {
    /// Nothing is left where a value should start.
    UnexpectedEnd,
    /// A byte other than a digit stands between `i` and `e`.
    InvalidInteger,
    /// The data ends inside an integer.
    UnexpectedEndInInteger,
    /// The data ends inside a list.
    UnexpectedEndInList,
    /// The data ends inside a dictionary.
    UnexpectedEndInDictionary,
    /// A byte other than a digit stands in a string's length.
    InvalidStringLength,
    /// The data ends before the `:` of a string.
    MissingColon,
    /// A string is longer than what is left of the data.
    StringOutOfBounds,
    /// A value starts with this byte.
    UnexpectedCharacter(u8),
    /// A dictionary key is not UTF-8.
    InvalidUtf8Key,
    /// An integer does not fit in an `i64`.
    IntegerOverflow,
}

/// The values of a sequence of entries.
pub open spec fn views_of(s: Seq<Entry>) -> Seq<Value>
    decreases s,
{
    if s.len() == 0 {
        Seq::empty()
    } else {
        views_of(s.subrange(0, s.len() - 1)).push(s[s.len() - 1].view())
    }
}

/// The values of a sequence of dictionary entries.
pub open spec fn dict_views_of(s: Seq<(String, Entry)>) -> Seq<(Seq<char>, Value)>
    decreases s,
{
    if s.len() == 0 {
        Seq::empty()
    } else {
        dict_views_of(s.subrange(0, s.len() - 1)).push(
            (s[s.len() - 1].0@, s[s.len() - 1].1.view()),
        )
    }
}

impl Entry {
    /// The value of this entry.
    pub open spec fn view(self) -> Value
        decreases self,
    {
        match self {
            Entry::String(b) => Value::Bytes(b@),
            Entry::Integer(i) => Value::Int(i as int),
            Entry::List(l) => Value::List(views_of(l@)),
            Entry::Dict(d) => Value::Dict(d.entries_view()),
        }
    }
}

/// The values of a sequence of entries, one by one.
pub proof fn lemma_views_of(s: Seq<Entry>)
    ensures
        views_of(s).len() == s.len(),
        forall|i: int| 0 <= i < s.len() ==> #[trigger] views_of(s)[i] == s[i].view(),
    decreases s.len(),
{
    if s.len() > 0 {
        lemma_views_of(s.subrange(0, s.len() - 1));
    }
}

/// The values of a sequence of dictionary entries, one by one.
pub proof fn lemma_dict_views_of(s: Seq<(String, Entry)>)
    ensures
        dict_views_of(s).len() == s.len(),
        forall|i: int|
            0 <= i < s.len() ==> #[trigger] dict_views_of(s)[i] == (s[i].0@, s[i].1.view()),
    decreases s.len(),
{
    if s.len() > 0 {
        lemma_dict_views_of(s.subrange(0, s.len() - 1));
    }
}

/* Dictionaries as sequences of (key, value) pairs */

/// `i` is the first position of key `k` in `d`.
pub open spec fn first_key_at<V>(d: Seq<(Seq<char>, V)>, k: Seq<char>, i: int) -> bool {
    &&& 0 <= i < d.len()
    &&& d[i].0 == k
    &&& forall|j: int| 0 <= j < i ==> #[trigger] d[j].0 != k
}

/// The value stored under key `k` in `d`, if any (the first one).
pub open spec fn dict_lookup<V>(d: Seq<(Seq<char>, V)>, k: Seq<char>) -> Option<V> {
    if exists|i: int| first_key_at(d, k, i) {
        Some(d[choose|i: int| first_key_at(d, k, i)].1)
    } else {
        None
    }
}

/// `d` with `v` stored under `k`: in place where `k` is present, else at the end.
pub open spec fn dict_insert<V>(d: Seq<(Seq<char>, V)>, k: Seq<char>, v: V) -> Seq<(Seq<char>, V)> {
    if exists|i: int| first_key_at(d, k, i) {
        d.update(choose|i: int| first_key_at(d, k, i), (k, v))
    } else {
        d.push((k, v))
    }
}

/// No key occurs twice in `d`.
pub open spec fn distinct_keys<V>(d: Seq<(Seq<char>, V)>) -> bool {
    forall|i: int, j: int| 0 <= i < j < d.len() ==> #[trigger] d[i].0 != #[trigger] d[j].0
}

/// A key has at most one first position.
pub proof fn lemma_first_key_unique<V>(d: Seq<(Seq<char>, V)>, k: Seq<char>, i: int, j: int)
    requires
        first_key_at(d, k, i),
        first_key_at(d, k, j),
    ensures
        i == j,
{
    if i < j {
        assert(d[i].0 != k);
    } else if j < i {
        assert(d[j].0 != k);
    }
}

/// Storing under a key keeps every key once.
pub proof fn lemma_insert_keeps_distinct<V>(d: Seq<(Seq<char>, V)>, k: Seq<char>, v: V)
    requires
        distinct_keys(d),
    ensures
        distinct_keys(dict_insert(d, k, v)),
{
    if exists|i: int| first_key_at(d, k, i) {
        let i = choose|i: int| first_key_at(d, k, i);
        let r = dict_insert(d, k, v);
        assert forall|a: int, b: int| 0 <= a < b < r.len() implies #[trigger] r[a].0 != #[trigger] r[b].0 by {
            assert(d[a].0 != d[b].0);
        }
    } else {
        let r = dict_insert(d, k, v);
        assert forall|a: int, b: int| 0 <= a < b < r.len() implies #[trigger] r[a].0 != #[trigger] r[b].0 by {
            if b == d.len() {
                if d[a].0 == k {
                    lemma_first_occurrence(d, k, a);
                }
            } else {
                assert(d[a].0 != d[b].0);
            }
        }
    }
}

/// If `k` occurs at `a`, then `k` has a first position.
pub proof fn lemma_first_occurrence<V>(d: Seq<(Seq<char>, V)>, k: Seq<char>, a: int)
    requires
        0 <= a < d.len(),
        d[a].0 == k,
    ensures
        exists|i: int| first_key_at(d, k, i),
    decreases a,
{
    if forall|j: int| 0 <= j < a ==> #[trigger] d[j].0 != k {
        assert(first_key_at(d, k, a));
    } else {
        let j = choose|j: int| 0 <= j < a && #[trigger] d[j].0 == k;
        lemma_first_occurrence(d, k, j);
    }
}

/// A lookup after storing under a key gives the stored value; every other key keeps
/// what it had.
pub proof fn lemma_lookup_after_insert<V>(d: Seq<(Seq<char>, V)>, k: Seq<char>, v: V, k2: Seq<char>)
    ensures
        dict_lookup(dict_insert(d, k, v), k) == Some(v),
        k2 != k ==> dict_lookup(dict_insert(d, k, v), k2) == dict_lookup(d, k2),
{
    let r = dict_insert(d, k, v);
    if exists|c: int| first_key_at(d, k, c) {
        let c = choose|c: int| first_key_at(d, k, c);
        assert(first_key_at(r, k, c));
        let c2 = choose|i: int| first_key_at(r, k, i);
        lemma_first_key_unique(r, k, c, c2);
        if k2 != k {
            assert forall|i: int| first_key_at(r, k2, i) <==> first_key_at(d, k2, i) by {
                if 0 <= i < d.len() {
                    assert forall|j: int| 0 <= j < i implies (r[j].0 != k2 <==> d[j].0 != k2) by {
                        if j == c {
                            assert(r[j].0 == k && d[j].0 == k);
                        }
                    }
                }
            }
            if exists|i: int| first_key_at(d, k2, i) {
                let a = choose|i: int| first_key_at(d, k2, i);
                let b = choose|i: int| first_key_at(r, k2, i);
                lemma_first_key_unique(d, k2, a, b);
                assert(a != c);
            }
        }
    } else {
        assert forall|j: int| 0 <= j < d.len() implies #[trigger] d[j].0 != k by {
            if d[j].0 == k {
                lemma_first_occurrence(d, k, j);
            }
        }
        assert(first_key_at(r, k, d.len() as int));
        let c2 = choose|i: int| first_key_at(r, k, i);
        lemma_first_key_unique(r, k, d.len() as int, c2);
        if k2 != k {
            assert forall|i: int| first_key_at(r, k2, i) <==> first_key_at(d, k2, i) by {
                if 0 <= i < d.len() {
                    assert forall|j: int| 0 <= j < i implies r[j] == d[j] by {}
                }
            }
            if exists|i: int| first_key_at(d, k2, i) {
                let a = choose|i: int| first_key_at(d, k2, i);
                let b = choose|i: int| first_key_at(r, k2, i);
                lemma_first_key_unique(d, k2, a, b);
            }
        }
    }
}

/* The decoder, as a function on byte sequences */

/// Where a run of digits that starts at `q` ends.
pub enum Scan {
    /// At this position, which holds the terminator.
    Found(int),
    /// A byte that is neither a digit nor the terminator comes first.
    Bad,
    /// The data ends first.
    End,
}

/// Scans from `q` for the first `term`, every byte before it being a digit.
pub open spec fn scan_digits(s: Seq<u8>, q: int, term: u8) -> Scan
    decreases s.len() - q,
{
    if q < 0 || q >= s.len() {
        Scan::End
    } else if s[q] == term {
        Scan::Found(q)
    } else if !is_digit(s[q]) {
        Scan::Bad
    } else {
        scan_digits(s, q + 1, term)
    }
}

/// The largest `i64`.
pub open spec fn i64_max() -> int {
    0x7fff_ffff_ffff_ffff
}

/// Decodes the value that starts at position `p` of `s`: the value and the position
/// just after it, or why there is none.
pub open spec fn parse_value(s: Seq<u8>, p: int) -> Result<(Value, int), BencodeError>
    decreases s.len() - p, 0int,
{
    if p < 0 || p >= s.len() {
        Err(BencodeError::UnexpectedEnd)
    } else if s[p] == 105 {
        // 'i'
        match scan_digits(s, p + 1, 101) {
            Scan::Bad => Err(BencodeError::InvalidInteger),
            Scan::End => Err(BencodeError::UnexpectedEndInInteger),
            Scan::Found(j) => {
                let n = digits_value(s.subrange(p + 1, j));
                if n > i64_max() {
                    Err(BencodeError::IntegerOverflow)
                } else {
                    Ok((Value::Int(n as int), j + 1))
                }
            },
        }
    } else if s[p] == 108 {
        // 'l'
        parse_list(s, p + 1, Seq::empty())
    } else if s[p] == 100 {
        // 'd'
        parse_dict(s, p + 1, Seq::empty())
    } else if is_digit(s[p]) {
        match scan_digits(s, p, 58) {
            Scan::Bad => Err(BencodeError::InvalidStringLength),
            Scan::End => Err(BencodeError::MissingColon),
            Scan::Found(j) => {
                let n = digits_value(s.subrange(p, j));
                if j + 1 + n > s.len() {
                    Err(BencodeError::StringOutOfBounds)
                } else {
                    Ok((Value::Bytes(s.subrange(j + 1, j + 1 + n)), j + 1 + n))
                }
            },
        }
    } else {
        Err(BencodeError::UnexpectedCharacter(s[p]))
    }
}

/// Decodes list items from position `q` up to the closing `e`, after the items `acc`.
pub open spec fn parse_list(s: Seq<u8>, q: int, acc: Seq<Value>) -> Result<(Value, int), BencodeError>
    decreases s.len() - q, 1int,
{
    if q < 0 || q >= s.len() {
        Err(BencodeError::UnexpectedEndInList)
    } else if s[q] == 101 {
        Ok((Value::List(acc), q + 1))
    } else {
        match parse_value(s, q) {
            Err(e) => Err(e),
            Ok((v, r)) => if q < r <= s.len() {
                parse_list(s, r, acc.push(v))
            } else {
                Err(BencodeError::UnexpectedEndInList)
            },
        }
    }
}

/// Decodes dictionary entries from position `q` up to the closing `e`, after the entries
/// `acc`. A key that is not a string is read and dropped together with its value.
pub open spec fn parse_dict(s: Seq<u8>, q: int, acc: Seq<(Seq<char>, Value)>) -> Result<
    (Value, int),
    BencodeError,
>
    decreases s.len() - q, 1int,
{
    if q < 0 || q >= s.len() {
        Err(BencodeError::UnexpectedEndInDictionary)
    } else if s[q] == 101 {
        Ok((Value::Dict(acc), q + 1))
    } else {
        match parse_value(s, q) {
            Err(e) => Err(e),
            Ok((k, r1)) => if q < r1 <= s.len() {
                match parse_value(s, r1) {
                    Err(e) => Err(e),
                    Ok((v, r2)) => if r1 < r2 <= s.len() {
                        match k {
                            Value::Bytes(b) => if valid_utf8(b) {
                                parse_dict(s, r2, dict_insert(acc, decode_utf8(b), v))
                            } else {
                                Err(BencodeError::InvalidUtf8Key)
                            },
                            _ => parse_dict(s, r2, acc),
                        }
                    } else {
                        Err(BencodeError::UnexpectedEndInDictionary)
                    },
                }
            } else {
                Err(BencodeError::UnexpectedEndInDictionary)
            },
        }
    }
}


/// A scan that finds its terminator finds it at or after its start, inside the data.
pub proof fn lemma_scan_found(s: Seq<u8>, q: int, term: u8)
    ensures
        scan_digits(s, q, term) matches Scan::Found(j) ==> 0 <= q <= j < s.len(),
    decreases s.len() - q,
{
    if 0 <= q < s.len() && s[q] != term && is_digit(s[q]) {
        lemma_scan_found(s, q + 1, term);
    }
}

/// The decoder moves forward: a value decoded at `p` ends after `p`, inside the data. So
/// the position checks in `parse_list` and `parse_dict` never fail.
pub proof fn lemma_parse_advances(s: Seq<u8>, p: int)
    ensures
        parse_value(s, p) matches Ok((_, r)) ==> p < r <= s.len(),
    decreases s.len() - p, 0int,
{
    if 0 <= p < s.len() {
        if s[p] == 105 {
            lemma_scan_found(s, p + 1, 101);
        } else if s[p] == 108 {
            lemma_parse_list_advances(s, p + 1, Seq::empty());
        } else if s[p] == 100 {
            lemma_parse_dict_advances(s, p + 1, Seq::empty());
        } else if is_digit(s[p]) {
            lemma_scan_found(s, p, 58);
        }
    }
}

/// The list decoder moves forward.
pub proof fn lemma_parse_list_advances(s: Seq<u8>, q: int, acc: Seq<Value>)
    ensures
        parse_list(s, q, acc) matches Ok((_, r)) ==> q < r <= s.len(),
    decreases s.len() - q, 1int,
{
    if 0 <= q < s.len() && s[q] != 101 {
        if let Ok((v, r)) = parse_value(s, q) {
            if q < r <= s.len() {
                lemma_parse_list_advances(s, r, acc.push(v));
            }
        }
    }
}

/// The dictionary decoder moves forward.
pub proof fn lemma_parse_dict_advances(s: Seq<u8>, q: int, acc: Seq<(Seq<char>, Value)>)
    ensures
        parse_dict(s, q, acc) matches Ok((_, r)) ==> q < r <= s.len(),
    decreases s.len() - q, 1int,
{
    if 0 <= q < s.len() && s[q] != 101 {
        if let Ok((k, r1)) = parse_value(s, q) {
            if q < r1 <= s.len() {
                if let Ok((v, r2)) = parse_value(s, r1) {
                    if r1 < r2 <= s.len() {
                        match k {
                            Value::Bytes(b) => {
                                if valid_utf8(b) {
                                    lemma_parse_dict_advances(
                                        s,
                                        r2,
                                        dict_insert(acc, decode_utf8(b), v),
                                    );
                                }
                            },
                            _ => {
                                lemma_parse_dict_advances(s, r2, acc);
                            },
                        }
                    }
                }
            }
        }
    }
}

/* The decoder */

/// `r` and the position `p` after a call are what the decoder's specification `spec` gives.
pub open spec fn decoded_as(spec: Result<(Value, int), BencodeError>, r: Result<Entry, BencodeError>, p: int) -> bool {
    match spec {
        Ok((v, q)) => (r matches Ok(e) && e.view() == v) && p == q,
        Err(e) => r == Err::<Entry, BencodeError>(e),
    }
}

enum ScanOut {
    Found(usize),
    Bad,
    End,
}

/// Scans `block` from `start` for `term`, every byte before it being a digit.
fn scan(block: &[u8], start: usize, term: u8) -> (r: ScanOut)
    requires
        start <= block.len(),
    ensures
        match r {
            ScanOut::Found(j) => {
                &&& scan_digits(block@, start as int, term) == Scan::Found(j as int)
                &&& start <= j < block.len()
                &&& all_digits(block@.subrange(start as int, j as int))
            },
            ScanOut::Bad => scan_digits(block@, start as int, term) == Scan::Bad,
            ScanOut::End => scan_digits(block@, start as int, term) == Scan::End,
        },
{
    let mut q = start;
    loop
        invariant
            start <= q <= block.len(),
            scan_digits(block@, start as int, term) == scan_digits(block@, q as int, term),
            all_digits(block@.subrange(start as int, q as int)),
        decreases block.len() - q,
    {
        if q >= block.len() {
            return ScanOut::End;
        }
        let b = block[q];
        if b == term {
            return ScanOut::Found(q);
        }
        if !(48 <= b && b <= 57) {
            return ScanOut::Bad;
        }
        assert(all_digits(block@.subrange(start as int, q + 1))) by {
            assert forall|i: int| 0 <= i < q + 1 - start implies is_digit(
                #[trigger] block@.subrange(start as int, q + 1)[i],
            ) by {
                if i < q - start {
                    assert(block@.subrange(start as int, q + 1)[i] == block@.subrange(
                        start as int,
                        q as int,
                    )[i]);
                }
            }
        }
        q += 1;
    }
}

/// The value of the digits `block[from..to]`, or `cap` where it is larger.
fn digits_capped(block: &[u8], from: usize, to: usize, cap: u128) -> (r: u128)
    requires
        from <= to <= block.len(),
        all_digits(block@.subrange(from as int, to as int)),
        cap <= 0x1_0000_0000_0000_0000_0000,
    ensures
        r == if digits_value(block@.subrange(from as int, to as int)) < cap {
            digits_value(block@.subrange(from as int, to as int)) as int
        } else {
            cap as int
        },
{
    let mut acc: u128 = 0;
    let mut i = from;
    assert(block@.subrange(from as int, from as int) =~= Seq::<u8>::empty());
    while i < to
        invariant
            from <= i <= to <= block.len(),
            all_digits(block@.subrange(from as int, to as int)),
            cap <= 0x1_0000_0000_0000_0000_0000,
            acc == if digits_value(block@.subrange(from as int, i as int)) < cap {
                digits_value(block@.subrange(from as int, i as int)) as int
            } else {
                cap as int
            },
        decreases to - i,
    {
        let b = block[i];
        assert(is_digit(b)) by {
            assert(block@.subrange(from as int, to as int)[i - from] == b);
        }
        let d: u128 = (b - 48) as u128;
        proof {
            assert(block@.subrange(from as int, i + 1) =~= block@.subrange(from as int, i as int).push(b));
            lemma_digits_value_push(block@.subrange(from as int, i as int), b);
        }
        if acc < cap {
            let next = acc * 10 + d;
            acc = if next < cap { next } else { cap };
        }
        i += 1;
    }
    acc
}

/// Stores `v` under `k` in `d`: in place where `k` is present, else at the end.
fn dict_store(d: &mut Vec<(String, Entry)>, k: String, v: Entry)
    ensures
        dict_views_of(final(d)@) == dict_insert(dict_views_of(old(d)@), k@, v.view()),
{
    proof {
        lemma_dict_views_of(d@);
    }
    let ghost old_views = dict_views_of(d@);
    let mut i: usize = 0;
    while i < d.len()
        invariant
            i <= d.len(),
            d@ == old(d)@,
            old_views == dict_views_of(d@),
            old_views.len() == d@.len(),
            forall|j: int| 0 <= j < i ==> #[trigger] old_views[j].0 != k@,
        decreases d.len() - i,
    {
        proof {
            lemma_dict_views_of(d@);
        }
        let same = d[i].0 == k;
        if same {
            assert(first_key_at(old_views, k@, i as int));
            proof {
                let c = choose|c: int| first_key_at(old_views, k@, c);
                lemma_first_key_unique(old_views, k@, i as int, c);
            }
            let ghost kv = (k@, v.view());
            d.set(i, (k, v));
            proof {
                lemma_dict_views_of(d@);
                assert(dict_views_of(d@) =~= old_views.update(i as int, kv));
            }
            return ;
        }
        i += 1;
    }
    assert(!exists|c: int| first_key_at(old_views, k@, c));
    let ghost kv = (k@, v.view());
    d.push((k, v));
    proof {
        lemma_dict_views_of(d@);
        assert(dict_views_of(d@) =~= old_views.push(kv));
    }
}

/// Decodes the value that starts at `*pos` in `block`, and moves `*pos` past it.
pub fn parse_block(block: &[u8], pos: &mut usize) -> (r: Result<Entry, BencodeError>)
    ensures
        decoded_as(parse_value(block@, *old(pos) as int), r, *final(pos) as int),
        r is Ok ==> *old(pos) < *final(pos) <= block.len(),
    decreases block.len() - *old(pos),
{
    let p = *pos;
    if p >= block.len() {
        return Err(BencodeError::UnexpectedEnd);
    }
    let c = block[p];
    if c == 105 {
        match scan(block, p + 1, 101) {
            ScanOut::Bad => Err(BencodeError::InvalidInteger),
            ScanOut::End => Err(BencodeError::UnexpectedEndInInteger),
            ScanOut::Found(j) => {
                let n = digits_capped(block, p + 1, j, 0x8000_0000_0000_0000);
                if n > 0x7fff_ffff_ffff_ffff {
                    Err(BencodeError::IntegerOverflow)
                } else {
                    *pos = j + 1;
                    Ok(Entry::Integer(n as i64))
                }
            },
        }
    } else if c == 108 {
        *pos = p + 1;
        let mut list: Vec<Entry> = Vec::new();
        while *pos < block.len() && block[*pos] != 101
            invariant
                p == *old(pos),
                p + 1 <= *pos <= block.len(),
                parse_value(block@, p as int) == parse_list(block@, *pos as int, views_of(list@)),
            decreases block.len() - *pos,
        {
            let item = match parse_block(block, pos) {
                Ok(e) => e,
                Err(e) => {
                    return Err(e);
                },
            };
            let ghost before = list@;
            list.push(item);
            assert(list@.subrange(0, list@.len() - 1) =~= before);
        }
        if *pos < block.len() {
            *pos += 1;
            Ok(Entry::List(list))
        } else {
            Err(BencodeError::UnexpectedEndInList)
        }
    } else if c == 100 {
        *pos = p + 1;
        let mut dict = Dict::new();
        while *pos < block.len() && block[*pos] != 101
            invariant
                p == *old(pos),
                p + 1 <= *pos <= block.len(),
                parse_value(block@, p as int) == parse_dict(block@, *pos as int, dict.entries_view()),
            decreases block.len() - *pos,
        {
            let key = match parse_block(block, pos) {
                Ok(e) => e,
                Err(e) => {
                    return Err(e);
                },
            };
            let value = match parse_block(block, pos) {
                Ok(e) => e,
                Err(e) => {
                    return Err(e);
                },
            };
            match key {
                Entry::String(bytes) => {
                    let key_str = match string_from_utf8(bytes) {
                        Ok(s) => s,
                        Err(_) => {
                            return Err(BencodeError::InvalidUtf8Key);
                        },
                    };
                    dict.insert(key_str, value);
                },
                _ => {},
            }
        }
        if *pos < block.len() {
            *pos += 1;
            Ok(Entry::Dict(dict))
        } else {
            Err(BencodeError::UnexpectedEndInDictionary)
        }
    } else if 48 <= c && c <= 57 {
        match scan(block, p, 58) {
            ScanOut::Bad => Err(BencodeError::InvalidStringLength),
            ScanOut::End => Err(BencodeError::MissingColon),
            ScanOut::Found(j) => {
                let n = digits_capped(block, p, j, block.len() as u128 + 1);
                let start = j + 1;
                if n > (block.len() - start) as u128 {
                    Err(BencodeError::StringOutOfBounds)
                } else {
                    let len = n as usize;
                    let bytes = vstd::slice::slice_to_vec(
                        vstd::slice::slice_subrange(block, start, start + len),
                    );
                    *pos = start + len;
                    Ok(Entry::String(bytes))
                }
            },
        }
    } else {
        Err(BencodeError::UnexpectedCharacter(c))
    }
}


/* The encoder, as a function on values */

/// A string: its length in decimal, `:`, then its bytes.
pub open spec fn encode_bytes(b: Seq<u8>) -> Seq<u8> {
    decimal(b.len()) + seq![58u8] + b
}

/// The bytes that `format` writes for a value.
pub open spec fn encode(v: Value) -> Seq<u8>
    decreases v,
{
    match v {
        Value::Int(i) => seq![105u8] + int_decimal(i) + seq![101u8],
        Value::Bytes(b) => encode_bytes(b),
        Value::List(l) => seq![108u8] + encode_list(l) + seq![101u8],
        Value::Dict(d) => seq![100u8] + encode_dict(d) + seq![101u8],
    }
}

/// The items of a list, one after the other.
pub open spec fn encode_list(l: Seq<Value>) -> Seq<u8>
    decreases l,
{
    if l.len() == 0 {
        Seq::empty()
    } else {
        encode(l[0]) + encode_list(l.subrange(1, l.len() as int))
    }
}

/// The entries of a dictionary, each its key (as a string of UTF-8 bytes) then its value.
pub open spec fn encode_dict(d: Seq<(Seq<char>, Value)>) -> Seq<u8>
    decreases d,
{
    if d.len() == 0 {
        Seq::empty()
    } else {
        encode_bytes(encode_utf8(d[0].0)) + encode(d[0].1) + encode_dict(
            d.subrange(1, d.len() as int),
        )
    }
}

/// Encoding one more item appends its encoding.
pub proof fn lemma_encode_list_push(l: Seq<Value>, v: Value)
    ensures
        encode_list(l.push(v)) == encode_list(l) + encode(v),
    decreases l.len(),
{
    if l.len() == 0 {
        assert(l.push(v).subrange(1, 1) =~= Seq::<Value>::empty());
        assert(encode_list(Seq::<Value>::empty()) == Seq::<u8>::empty());
        assert(l.push(v)[0] == v);
        assert(encode_list(l.push(v)) == encode(v) + encode_list(l.push(v).subrange(1, 1)));
        assert(encode_list(l.push(v)) =~= encode_list(l) + encode(v));
    } else {
        let rest = l.subrange(1, l.len() as int);
        assert(l.push(v).subrange(1, l.len() + 1 as int) =~= rest.push(v));
        lemma_encode_list_push(rest, v);
        assert(encode_list(l.push(v)) =~= encode_list(l) + encode(v));
    }
}

/// Encoding one more entry appends its key's and value's encodings.
pub proof fn lemma_encode_dict_push(d: Seq<(Seq<char>, Value)>, kv: (Seq<char>, Value))
    ensures
        encode_dict(d.push(kv)) == encode_dict(d) + encode_bytes(encode_utf8(kv.0)) + encode(kv.1),
    decreases d.len(),
{
    if d.len() == 0 {
        assert(d.push(kv).subrange(1, 1) =~= Seq::<(Seq<char>, Value)>::empty());
        assert(encode_dict(Seq::<(Seq<char>, Value)>::empty()) == Seq::<u8>::empty());
        assert(d.push(kv)[0] == kv);
        assert(encode_dict(d.push(kv)) =~= encode_dict(d) + encode_bytes(encode_utf8(kv.0))
            + encode(kv.1));
    } else {
        let rest = d.subrange(1, d.len() as int);
        assert(d.push(kv).subrange(1, d.len() + 1 as int) =~= rest.push(kv));
        lemma_encode_dict_push(rest, kv);
        assert(encode_dict(d.push(kv)) =~= encode_dict(d) + encode_bytes(encode_utf8(kv.0))
            + encode(kv.1));
    }
}

/* The encoder */

/// Appends the bytes of `src` to `out`.
fn push_all(out: &mut Vec<u8>, src: &[u8])
    ensures
        final(out)@ == old(out)@ + src@,
{
    let mut i: usize = 0;
    while i < src.len()
        invariant
            i <= src.len(),
            out@ == old(out)@ + src@.take(i as int),
        decreases src.len() - i,
    {
        out.push(src[i]);
        assert(src@.take(i + 1) =~= src@.take(i as int).push(src@[i as int]));
        i += 1;
    }
    assert(src@.take(i as int) =~= src@);
}

/// Appends a string in bencode (length, `:`, bytes) to `out`.
fn write_bytes(out: &mut Vec<u8>, b: &[u8])
    ensures
        final(out)@ == old(out)@ + encode_bytes(b@),
{
    push_decimal(out, b.len() as u64);
    out.push(58);
    push_all(out, b);
    assert(final(out)@ =~= old(out)@ + encode_bytes(b@));
}

/// Appends the encoding of `e` to `out`.
fn write_entry(e: &Entry, out: &mut Vec<u8>)
    ensures
        final(out)@ == old(out)@ + encode(e.view()),
    decreases e,
{
    match e {
        Entry::Integer(i) => {
            out.push(105);
            push_int(out, *i);
            out.push(101);
            assert(final(out)@ =~= old(out)@ + encode(e.view()));
        },
        Entry::String(b) => {
            write_bytes(out, b.as_slice());
        },
        Entry::List(l) => {
            out.push(108);
            let ghost start = out@;
            proof {
                lemma_views_of(l@);
            }
            let mut i: usize = 0;
            while i < l.len()
                invariant
                    i <= l.len(),
                    *e == Entry::List(*l),
                    views_of(l@).len() == l@.len(),
                    forall|k: int| 0 <= k < l@.len() ==> #[trigger] views_of(l@)[k] == l@[k].view(),
                    out@ == start + encode_list(views_of(l@).take(i as int)),
                decreases l.len() - i,
            {
                proof {
                    assert(decreases_to!(*e => (*e)->List_0));
                    assert(decreases_to!(*l => l@));
                    assert(decreases_to!(l@ => l@[i as int]));
                }
                write_entry(&l[i], out);
                proof {
                    let vs = views_of(l@);
                    assert(vs.take(i + 1) =~= vs.take(i as int).push(vs[i as int]));
                    lemma_encode_list_push(vs.take(i as int), vs[i as int]);
                }
                i += 1;
            }
            out.push(101);
            assert(views_of(l@).take(i as int) =~= views_of(l@));
            assert(final(out)@ =~= old(out)@ + encode(e.view()));
        },
        Entry::Dict(dict) => {
            out.push(100);
            let ghost start = out@;
            let d = &dict.entries;
            proof {
                lemma_dict_views_of(d@);
            }
            let mut i: usize = 0;
            while i < d.len()
                invariant
                    i <= d.len(),
                    *e == Entry::Dict(*dict),
                    dict.entries == *d,
                    dict_views_of(d@) == dict.entries_view(),
                    dict_views_of(d@).len() == d@.len(),
                    forall|k: int|
                        0 <= k < d@.len() ==> #[trigger] dict_views_of(d@)[k] == (
                            d@[k].0@,
                            d@[k].1.view(),
                        ),
                    out@ == start + encode_dict(dict_views_of(d@).take(i as int)),
                decreases d.len() - i,
            {
                let key_bytes = d[i].0.as_str().as_bytes();
                write_bytes(out, key_bytes);
                proof {
                    assert(decreases_to!(*e => (*e)->Dict_0));
                    assert(decreases_to!(*dict => dict.entries));
                    assert(decreases_to!(dict.entries => d@));
                    assert(decreases_to!(d@ => d@[i as int]));
                    assert(decreases_to!(d@[i as int] => d@[i as int].1));
                }
                write_entry(&d[i].1, out);
                proof {
                    let vs = dict_views_of(d@);
                    assert(vs.take(i + 1) =~= vs.take(i as int).push(vs[i as int]));
                    lemma_encode_dict_push(vs.take(i as int), vs[i as int]);
                }
                i += 1;
            }
            out.push(101);
            assert(dict_views_of(d@).take(i as int) =~= dict_views_of(d@));
            assert(final(out)@ =~= old(out)@ + encode(e.view()));
        },
    }
}

/* Entries */

/// `r` holds an entry exactly when `v` holds a value, and then one with that value.
pub open spec fn found_as(r: Option<Entry>, v: Option<Value>) -> bool {
    match v {
        Some(x) => r matches Some(e) && e.view() == x,
        None => r is None,
    }
}

impl Dict {
    #[verifier::type_invariant]
    spec fn keys_once(self) -> bool {
        distinct_keys(dict_views_of(self.entries@))
    }

    /// The keys and values of the entries, in order.
    pub closed spec fn entries_view(self) -> Seq<(Seq<char>, Value)>
        decreases self,
    {
        dict_views_of(self.entries@)
    }

    /// An empty dictionary.
    pub fn new() -> (d: Self)
        ensures
            d.entries_view() == Seq::<(Seq<char>, Value)>::empty(),
    {
        let d = Dict { entries: Vec::new() };
        assert(dict_views_of(d.entries@) =~= Seq::<(Seq<char>, Value)>::empty());
        d
    }

    /// Stores `v` under `k`: in place where `k` is present, else at the end.
    pub fn insert(&mut self, k: String, v: Entry)
        ensures
            final(self).entries_view() == dict_insert(old(self).entries_view(), k@, v.view()),
    {
        proof {
            use_type_invariant(&*self);
            lemma_insert_keeps_distinct(self.entries_view(), k@, v.view());
        }
        let mut entries: Vec<(String, Entry)> = Vec::new();
        std::mem::swap(&mut entries, &mut self.entries);
        dict_store(&mut entries, k, v);
        self.entries = entries;
    }

    /// The entry stored under `key`, if any.
    pub fn get(&self, key: &str) -> (r: Option<&Entry>)
        ensures
            match dict_lookup(self.entries_view(), key@) {
                Some(v) => r matches Some(e) && e.view() == v,
                None => r is None,
            },
    {
        let d = &self.entries;
        let k = key.to_owned();
        proof {
            lemma_dict_views_of(d@);
        }
        let ghost views = dict_views_of(d@);
        let mut i: usize = 0;
        while i < d.len()
            invariant
                i <= d.len(),
                views == dict_views_of(d@),
                views == self.entries_view(),
                views.len() == d@.len(),
                forall|j: int| 0 <= j < d@.len() ==> #[trigger] views[j] == (d@[j].0@, d@[j].1.view()),
                k@ == key@,
                forall|j: int| 0 <= j < i ==> #[trigger] views[j].0 != k@,
            decreases d.len() - i,
        {
            if d[i].0 == k {
                assert(first_key_at(views, k@, i as int));
                proof {
                    let c = choose|c: int| first_key_at(views, k@, c);
                    lemma_first_key_unique(views, k@, i as int, c);
                }
                return Some(&d[i].1);
            }
            i += 1;
        }
        assert(!exists|c: int| first_key_at(views, k@, c));
        None
    }

    /// The number of entries.
    pub fn len(&self) -> (r: usize)
        ensures
            r == self.entries_view().len(),
    {
        proof {
            lemma_dict_views_of(self.entries@);
        }
        self.entries.len()
    }

    /// The entries, in order; no key occurs twice among them.
    pub fn entries(&self) -> (r: &Vec<(String, Entry)>)
        ensures
            dict_views_of(r@) == self.entries_view(),
            distinct_keys(dict_views_of(r@)),
    {
        proof {
            use_type_invariant(self);
        }
        &self.entries
    }

    /// A copy of this dictionary.
    pub fn copy(&self) -> (r: Dict)
        ensures
            r.entries_view() == self.entries_view(),
        decreases self,
    {
        proof {
            use_type_invariant(self);
        }
        let d = &self.entries;
        let mut out: Vec<(String, Entry)> = Vec::new();
        let mut i: usize = 0;
        proof {
            lemma_dict_views_of(d@);
        }
        while i < d.len()
            invariant
                i <= d.len(),
                *d == self.entries,
                distinct_keys(dict_views_of(d@)),
                dict_views_of(d@).len() == d@.len(),
                forall|k: int|
                    0 <= k < d@.len() ==> #[trigger] dict_views_of(d@)[k] == (
                        d@[k].0@,
                        d@[k].1.view(),
                    ),
                dict_views_of(out@) == dict_views_of(d@).take(i as int),
            decreases d.len() - i,
        {
            proof {
                assert(decreases_to!(*self => self.entries));
                assert(decreases_to!(self.entries => d@));
                assert(decreases_to!(d@ => d@[i as int]));
                assert(decreases_to!(d@[i as int] => d@[i as int].1));
            }
            let k = d[i].0.clone();
            let v = d[i].1.copy();
            let ghost before = out@;
            out.push((k, v));
            proof {
                assert(out@.subrange(0, out@.len() - 1) =~= before);
                assert(dict_views_of(d@).take(i + 1) =~= dict_views_of(d@).take(i as int).push(
                    (d@[i as int].0@, d@[i as int].1.view()),
                ));
            }
            i += 1;
        }
        assert(dict_views_of(d@).take(i as int) =~= dict_views_of(d@));
        Dict { entries: out }
    }
}

impl Entry {
    /// A copy of this entry.
    pub fn copy(&self) -> (r: Entry)
        ensures
            r.view() == self.view(),
        decreases self,
    {
        match self {
            Entry::String(b) => Entry::String(vstd::slice::slice_to_vec(b.as_slice())),
            Entry::Integer(i) => Entry::Integer(*i),
            Entry::List(l) => {
                let mut out: Vec<Entry> = Vec::new();
                let mut i: usize = 0;
                proof {
                    lemma_views_of(l@);
                }
                while i < l.len()
                    invariant
                        i <= l.len(),
                        *self == Entry::List(*l),
                        views_of(l@).len() == l@.len(),
                        forall|k: int| 0 <= k < l@.len() ==> #[trigger] views_of(l@)[k] == l@[k].view(),
                        views_of(out@) == views_of(l@).take(i as int),
                    decreases l.len() - i,
                {
                    proof {
                        assert(decreases_to!(*self => (*self)->List_0));
                        assert(decreases_to!(*l => l@));
                        assert(decreases_to!(l@ => l@[i as int]));
                    }
                    let c = l[i].copy();
                    let ghost before = out@;
                    out.push(c);
                    proof {
                        assert(out@.subrange(0, out@.len() - 1) =~= before);
                        assert(views_of(l@).take(i + 1) =~= views_of(l@).take(i as int).push(
                            l@[i as int].view(),
                        ));
                    }
                    i += 1;
                }
                assert(views_of(l@).take(i as int) =~= views_of(l@));
                Entry::List(out)
            },
            Entry::Dict(d) => {
                proof {
                    assert(decreases_to!(*self => (*self)->Dict_0));
                }
                Entry::Dict(d.copy())
            },
        }
    }

    /// The bytes of a string entry.
    pub fn as_string(&self) -> (r: Option<Vec<u8>>)
        ensures
            match self {
                Entry::String(b) => r matches Some(c) && c@ == b@,
                _ => r is None,
            },
    {
        match self {
            Entry::String(b) => Some(vstd::slice::slice_to_vec(b.as_slice())),
            _ => None,
        }
    }

    /// The number of an integer entry.
    pub fn as_int(&self) -> (r: Option<i64>)
        ensures
            r == match self {
                Entry::Integer(i) => Some(*i),
                _ => None,
            },
    {
        match self {
            Entry::Integer(i) => Some(*i),
            _ => None,
        }
    }

    /// A copy of the items of a list entry.
    pub fn as_list(&self) -> (r: Option<Vec<Entry>>)
        ensures
            match self {
                Entry::List(l) => r matches Some(c) && views_of(c@) == views_of(l@),
                _ => r is None,
            },
    {
        match self {
            Entry::List(_) => match self.copy() {
                Entry::List(c) => Some(c),
                _ => None,
            },
            _ => None,
        }
    }

    /// A copy of the entries of a dictionary entry.
    pub fn as_dict(&self) -> (r: Option<Dict>)
        ensures
            match self {
                Entry::Dict(d) => r matches Some(c) && c.entries_view() == d.entries_view(),
                _ => r is None,
            },
    {
        match self {
            Entry::Dict(d) => Some(d.copy()),
            _ => None,
        }
    }
}


/// The bytes that encode `entry`.
pub fn format_block(entry: Entry) -> (r: Vec<u8>)
    ensures
        r@ == encode(entry.view()),
{
    let mut out: Vec<u8> = Vec::new();
    write_entry(&entry, &mut out);
    assert(out@ =~= encode(entry.view()));
    out
}

/// A decoded document: one bencode value.
#[derive(Debug)]
pub struct Bencode {
    value: Entry,
}

impl View for Bencode {
    type V = Value;

    closed spec fn view(&self) -> Value {
        self.value.view()
    }
}

impl Bencode {
    /// What the document holds is well-formed: it is empty or came from the decoder.
    #[verifier::type_invariant]
    spec fn holds_wf(self) -> bool {
        wf(self.value.view())
    }

    /// An empty dictionary.
    pub fn new() -> (b: Self)
        ensures
            b@ == Value::Dict(Seq::empty()),
    {
        let d = Dict::new();
        assert(wf(Value::Dict(d.entries_view())));
        Bencode { value: Entry::Dict(d) }
    }

    /// Decodes the value at the start of `content` (bytes after it are ignored). On an
    /// error the document is left as it was.
    pub fn parse(&mut self, content: Vec<u8>) -> (r: Result<(), BencodeError>)
        ensures
            match parse_value(content@, 0) {
                Ok((v, _)) => r is Ok && final(self)@ == v,
                Err(e) => r == Err::<(), BencodeError>(e) && final(self)@ == old(self)@,
            },
    {
        let mut pos: usize = 0;
        proof {
            lemma_parse_wf(content@, 0);
        }
        match parse_block(content.as_slice(), &mut pos) {
            Ok(e) => {
                self.value = e;
                Ok(())
            },
            Err(e) => Err(e),
        }
    }

    /// The encoding of the document.
    pub fn format(&self) -> (r: Vec<u8>)
        ensures
            r@ == encode(self@),
    {
        format_block(self.value.copy())
    }

    /// A copy of the value stored under `key`, where the document is a dictionary.
    pub fn get(&self, key: &str) -> (r: Option<Entry>)
        ensures
            found_as(
                r,
                match self@ {
                    Value::Dict(d) => dict_lookup(d, key@),
                    _ => None,
                },
            ),
            wf(self@),
    {
        proof {
            use_type_invariant(self);
        }
        match &self.value {
            Entry::Dict(d) => match d.get(key) {
                Some(e) => Some(e.copy()),
                None => None,
            },
            _ => None,
        }
    }

    /// The document's value.
    pub fn value(&self) -> (r: &Entry)
        ensures
            r.view() == self@,
            wf(self@),
    {
        proof {
            use_type_invariant(self);
        }
        &self.value
    }
}

impl Clone for Entry {
    fn clone(&self) -> (r: Self)
        ensures
            r.view() == self.view(),
    {
        self.copy()
    }
}

impl Clone for Dict {
    fn clone(&self) -> (r: Self)
        ensures
            r.entries_view() == self.entries_view(),
    {
        self.copy()
    }
}

impl Clone for Bencode {
    fn clone(&self) -> (r: Self)
        ensures
            r@ == self@,
    {
        proof {
            use_type_invariant(self);
        }
        Bencode { value: self.value.copy() }
    }
}

/* Decoding what the encoder writes */

/// Integers are not negative and fit in an `i64`; no dictionary holds a key twice.
pub open spec fn wf(v: Value) -> bool
    decreases v,
{
    match v {
        Value::Int(i) => 0 <= i <= i64_max(),
        Value::Bytes(_) => true,
        Value::List(l) => wf_list(l),
        Value::Dict(d) => distinct_keys(d) && wf_dict(d),
    }
}

/// Every item is well-formed.
pub open spec fn wf_list(l: Seq<Value>) -> bool
    decreases l,
{
    l.len() == 0 || (wf(l[0]) && wf_list(l.subrange(1, l.len() as int)))
}

/// Every value is well-formed.
pub open spec fn wf_dict(d: Seq<(Seq<char>, Value)>) -> bool
    decreases d,
{
    d.len() == 0 || (wf(d[0].1) && wf_dict(d.subrange(1, d.len() as int)))
}

/// Over `k` digits followed by `term`, the scan stops at `term`.
proof fn lemma_scan_over_digits(s: Seq<u8>, q: int, k: int, term: u8)
    requires
        0 <= q,
        0 <= k,
        q + k < s.len(),
        all_digits(s.subrange(q, q + k)),
        s[q + k] == term,
        !is_digit(term),
    ensures
        scan_digits(s, q, term) == Scan::Found(q + k),
    decreases k,
{
    if k > 0 {
        assert(s[q] == s.subrange(q, q + k)[0]);
        assert(all_digits(s.subrange(q + 1, q + k))) by {
            assert forall|i: int| 0 <= i < k - 1 implies is_digit(
                #[trigger] s.subrange(q + 1, q + k)[i],
            ) by {
                assert(s.subrange(q + 1, q + k)[i] == s.subrange(q, q + k)[i + 1]);
            }
        }
        lemma_scan_over_digits(s, q + 1, k - 1, term);
    }
}

/// Every encoding starts with `i`, `l`, `d` or a digit.
proof fn lemma_encode_first(v: Value)
    ensures
        encode(v).len() > 0,
        encode(v)[0] == 105 || encode(v)[0] == 108 || encode(v)[0] == 100 || is_digit(
            encode(v)[0],
        ),
{
    match v {
        Value::Bytes(b) => {
            lemma_decimal_digits(b.len());
            assert(encode(v)[0] == decimal(b.len())[0]);
        },
        _ => {},
    }
}

/// A string's encoding, found at `p`, decodes to it.
proof fn lemma_parse_encoded_bytes(b: Seq<u8>, s: Seq<u8>, p: int)
    requires
        0 <= p,
        p + encode_bytes(b).len() <= s.len(),
        s.subrange(p, p + encode_bytes(b).len()) == encode_bytes(b),
    ensures
        parse_value(s, p) == Ok::<(Value, int), BencodeError>((Value::Bytes(b), p + encode_bytes(b).len())),
{
    let digits = decimal(b.len());
    let k = digits.len() as int;
    lemma_decimal_digits(b.len());
    let e = encode_bytes(b);
    assert(s[p] == e[0]);
    assert(e[0] == digits[0]);
    assert(s.subrange(p, p + k) =~= digits) by {
        assert forall|i: int| 0 <= i < k implies s.subrange(p, p + k)[i] == digits[i] by {
            assert(s.subrange(p, p + k)[i] == e[i]);
        }
    }
    assert(s[p + k] == e[k]);
    lemma_scan_over_digits(s, p, k, 58);
    assert(s.subrange(p + k + 1, p + k + 1 + b.len()) =~= b) by {
        assert forall|i: int| 0 <= i < b.len() implies s.subrange(p + k + 1, p + k + 1 + b.len())[i]
            == b[i] by {
            assert(s[p + k + 1 + i] == e[k + 1 + i]);
        }
    }
}

/// The encoding of a well-formed value, found at `p`, decodes to that value and ends
/// where the encoding ends.
pub proof fn lemma_parse_encoded(v: Value, s: Seq<u8>, p: int)
    requires
        wf(v),
        0 <= p,
        p + encode(v).len() <= s.len(),
        s.subrange(p, p + encode(v).len()) == encode(v),
    ensures
        parse_value(s, p) == Ok::<(Value, int), BencodeError>((v, p + encode(v).len())),
    decreases v,
{
    let e = encode(v);
    assert(s[p] == e[0]);
    match v {
        Value::Int(i) => {
            let digits = decimal(i as nat);
            let k = digits.len() as int;
            lemma_decimal_digits(i as nat);
            assert(s.subrange(p + 1, p + 1 + k) =~= digits) by {
                assert forall|j: int| 0 <= j < k implies s.subrange(p + 1, p + 1 + k)[j]
                    == digits[j] by {
                    assert(s[p + 1 + j] == e[1 + j]);
                }
            }
            assert(s[p + 1 + k] == e[1 + k]);
            lemma_scan_over_digits(s, p + 1, k, 101);
        },
        Value::Bytes(b) => {
            lemma_parse_encoded_bytes(b, s, p);
        },
        Value::List(l) => {
            let inner = encode_list(l);
            assert(s.subrange(p + 1, p + 1 + inner.len() + 1) =~= inner + seq![101u8]) by {
                assert forall|j: int| 0 <= j < inner.len() + 1 implies s.subrange(
                    p + 1,
                    p + 1 + inner.len() + 1,
                )[j] == (inner + seq![101u8])[j] by {
                    assert(s[p + 1 + j] == e[1 + j]);
                }
            }
            lemma_parse_encoded_list(l, s, p + 1, Seq::empty());
            assert(Seq::<Value>::empty() + l =~= l);
        },
        Value::Dict(d) => {
            let inner = encode_dict(d);
            assert(s.subrange(p + 1, p + 1 + inner.len() + 1) =~= inner + seq![101u8]) by {
                assert forall|j: int| 0 <= j < inner.len() + 1 implies s.subrange(
                    p + 1,
                    p + 1 + inner.len() + 1,
                )[j] == (inner + seq![101u8])[j] by {
                    assert(s[p + 1 + j] == e[1 + j]);
                }
            }
            assert(Seq::<(Seq<char>, Value)>::empty() + d =~= d);
            lemma_parse_encoded_dict(d, s, p + 1, Seq::empty());
        },
    }
}

/// Encoded list items followed by `e`, found at `q`, decode to those items.
pub proof fn lemma_parse_encoded_list(l: Seq<Value>, s: Seq<u8>, q: int, acc: Seq<Value>)
    requires
        wf_list(l),
        0 <= q,
        q + encode_list(l).len() + 1 <= s.len(),
        s.subrange(q, q + encode_list(l).len() + 1) == encode_list(l) + seq![101u8],
    ensures
        parse_list(s, q, acc) == Ok::<(Value, int), BencodeError>(
            (Value::List(acc + l), q + encode_list(l).len() + 1),
        ),
    decreases l,
{
    let inner = encode_list(l);
    assert(s[q] == (inner + seq![101u8])[0]);
    if l.len() == 0 {
        assert(acc + l =~= acc);
    } else {
        let first = encode(l[0]);
        let rest = l.subrange(1, l.len() as int);
        lemma_encode_first(l[0]);
        assert(s[q] == first[0]);
        assert(s.subrange(q, q + first.len()) =~= first) by {
            assert forall|j: int| 0 <= j < first.len() implies s.subrange(q, q + first.len())[j]
                == first[j] by {
                assert(s[q + j] == (inner + seq![101u8])[j]);
            }
        }
        lemma_parse_encoded(l[0], s, q);
        let q2 = q + first.len();
        assert(s.subrange(q2, q2 + encode_list(rest).len() + 1) =~= encode_list(rest) + seq![101u8])
            by {
            assert forall|j: int| 0 <= j < encode_list(rest).len() + 1 implies s.subrange(
                q2,
                q2 + encode_list(rest).len() + 1,
            )[j] == (encode_list(rest) + seq![101u8])[j] by {
                assert(s[q2 + j] == (inner + seq![101u8])[first.len() + j]);
            }
        }
        lemma_parse_encoded_list(rest, s, q2, acc.push(l[0]));
        assert(acc.push(l[0]) + rest =~= acc + l);
    }
}

/// Encoded dictionary entries followed by `e`, found at `q`, decode to those entries
/// after `acc`, provided no key occurs twice among them all.
pub proof fn lemma_parse_encoded_dict(
    d: Seq<(Seq<char>, Value)>,
    s: Seq<u8>,
    q: int,
    acc: Seq<(Seq<char>, Value)>,
)
    requires
        wf_dict(d),
        distinct_keys(acc + d),
        0 <= q,
        q + encode_dict(d).len() + 1 <= s.len(),
        s.subrange(q, q + encode_dict(d).len() + 1) == encode_dict(d) + seq![101u8],
    ensures
        parse_dict(s, q, acc) == Ok::<(Value, int), BencodeError>(
            (Value::Dict(acc + d), q + encode_dict(d).len() + 1),
        ),
    decreases d,
{
    let inner = encode_dict(d);
    let tail = inner + seq![101u8];
    assert(s[q] == tail[0]);
    if d.len() == 0 {
        assert(acc + d =~= acc);
    } else {
        let key = encode_utf8(d[0].0);
        let kenc = encode_bytes(key);
        let venc = encode(d[0].1);
        let rest = d.subrange(1, d.len() as int);
        lemma_decimal_digits(key.len());
        assert(kenc[0] == decimal(key.len())[0]);
        assert(s[q] == kenc[0]);
        assert(s.subrange(q, q + kenc.len()) =~= kenc) by {
            assert forall|j: int| 0 <= j < kenc.len() implies s.subrange(q, q + kenc.len())[j]
                == kenc[j] by {
                assert(s[q + j] == tail[j]);
            }
        }
        lemma_parse_encoded_bytes(key, s, q);
        let q1 = q + kenc.len();
        assert(s.subrange(q1, q1 + venc.len()) =~= venc) by {
            assert forall|j: int| 0 <= j < venc.len() implies s.subrange(q1, q1 + venc.len())[j]
                == venc[j] by {
                assert(s[q1 + j] == tail[kenc.len() + j]);
            }
        }
        lemma_encode_first(d[0].1);
        lemma_parse_encoded(d[0].1, s, q1);
        let q2 = q1 + venc.len();
        assert(s.subrange(q2, q2 + encode_dict(rest).len() + 1) =~= encode_dict(rest) + seq![101u8])
            by {
            assert forall|j: int| 0 <= j < encode_dict(rest).len() + 1 implies s.subrange(
                q2,
                q2 + encode_dict(rest).len() + 1,
            )[j] == (encode_dict(rest) + seq![101u8])[j] by {
                assert(s[q2 + j] == tail[kenc.len() + venc.len() + j]);
            }
        }
        assert(decode_utf8(key) == d[0].0);
        assert(!exists|i: int| first_key_at(acc, d[0].0, i)) by {
            if exists|i: int| first_key_at(acc, d[0].0, i) {
                let i = choose|i: int| first_key_at(acc, d[0].0, i);
                assert((acc + d)[i].0 == (acc + d)[acc.len() as int].0);
            }
        }
        assert(acc.push(d[0]) + rest =~= acc + d);
        lemma_parse_encoded_dict(rest, s, q2, acc.push(d[0]));
    }
}

/// Decoding what the encoder writes for a well-formed value gives back that value, and
/// the decoder stops at the end of the encoding.
pub proof fn lemma_decode_encode(v: Value)
    requires
        wf(v),
    ensures
        parse_value(encode(v), 0) == Ok::<(Value, int), BencodeError>((v, encode(v).len() as int)),
{
    assert(encode(v).subrange(0, encode(v).len() as int) =~= encode(v));
    lemma_parse_encoded(v, encode(v), 0);
}


/// `wf_list` holds exactly when every item is well-formed.
pub proof fn lemma_wf_list_all(l: Seq<Value>)
    ensures
        wf_list(l) <==> forall|i: int| 0 <= i < l.len() ==> wf(#[trigger] l[i]),
    decreases l.len(),
{
    if l.len() > 0 {
        let rest = l.subrange(1, l.len() as int);
        lemma_wf_list_all(rest);
        if forall|i: int| 0 <= i < l.len() ==> wf(#[trigger] l[i]) {
            assert forall|i: int| 0 <= i < rest.len() implies wf(#[trigger] rest[i]) by {
                assert(rest[i] == l[i + 1]);
            }
        }
        if wf_list(l) {
            assert forall|i: int| 0 <= i < l.len() implies wf(#[trigger] l[i]) by {
                if i > 0 {
                    assert(l[i] == rest[i - 1]);
                }
            }
        }
    }
}

/// `wf_dict` holds exactly when every value is well-formed.
pub proof fn lemma_wf_dict_all(d: Seq<(Seq<char>, Value)>)
    ensures
        wf_dict(d) <==> forall|i: int| 0 <= i < d.len() ==> wf(#[trigger] d[i].1),
    decreases d.len(),
{
    if d.len() > 0 {
        let rest = d.subrange(1, d.len() as int);
        lemma_wf_dict_all(rest);
        if forall|i: int| 0 <= i < d.len() ==> wf(#[trigger] d[i].1) {
            assert forall|i: int| 0 <= i < rest.len() implies wf(#[trigger] rest[i].1) by {
                assert(rest[i] == d[i + 1]);
            }
        }
        if wf_dict(d) {
            assert forall|i: int| 0 <= i < d.len() implies wf(#[trigger] d[i].1) by {
                if i > 0 {
                    assert(d[i] == rest[i - 1]);
                }
            }
        }
    }
}

/// Everything the decoder gives is well-formed: its integers fit in an `i64` and are
/// not negative, and no dictionary holds a key twice.
pub proof fn lemma_parse_wf(s: Seq<u8>, p: int)
    ensures
        parse_value(s, p) matches Ok((v, _)) ==> wf(v),
    decreases s.len() - p, 0int,
{
    if 0 <= p < s.len() {
        if s[p] == 108 {
            lemma_wf_list_all(Seq::<Value>::empty());
            lemma_parse_list_wf(s, p + 1, Seq::empty());
        } else if s[p] == 100 {
            lemma_wf_dict_all(Seq::<(Seq<char>, Value)>::empty());
            lemma_parse_dict_wf(s, p + 1, Seq::empty());
        }
    }
}

/// The items that the list decoder adds to well-formed ones leave them well-formed.
pub proof fn lemma_parse_list_wf(s: Seq<u8>, q: int, acc: Seq<Value>)
    requires
        wf_list(acc),
    ensures
        parse_list(s, q, acc) matches Ok((v, _)) ==> wf(v),
    decreases s.len() - q, 1int,
{
    if 0 <= q < s.len() && s[q] != 101 {
        if let Ok((v, r)) = parse_value(s, q) {
            if q < r <= s.len() {
                lemma_parse_wf(s, q);
                lemma_wf_list_all(acc);
                lemma_wf_list_all(acc.push(v));
                assert forall|i: int| 0 <= i < acc.push(v).len() implies wf(
                    #[trigger] acc.push(v)[i],
                ) by {
                    if i < acc.len() {
                        assert(acc.push(v)[i] == acc[i]);
                    }
                }
                lemma_parse_list_wf(s, r, acc.push(v));
            }
        }
    }
}

/// The entries that the dictionary decoder adds to well-formed ones, with every key
/// once, leave them well-formed.
pub proof fn lemma_parse_dict_wf(s: Seq<u8>, q: int, acc: Seq<(Seq<char>, Value)>)
    requires
        wf_dict(acc),
        distinct_keys(acc),
    ensures
        parse_dict(s, q, acc) matches Ok((v, _)) ==> wf(v),
    decreases s.len() - q, 1int,
{
    if 0 <= q < s.len() && s[q] != 101 {
        if let Ok((k, r1)) = parse_value(s, q) {
            if q < r1 <= s.len() {
                if let Ok((v, r2)) = parse_value(s, r1) {
                    if r1 < r2 <= s.len() {
                        match k {
                            Value::Bytes(b) => {
                                if valid_utf8(b) {
                                    let key = decode_utf8(b);
                                    let next = dict_insert(acc, key, v);
                                    lemma_parse_wf(s, r1);
                                    lemma_insert_keeps_distinct(acc, key, v);
                                    lemma_wf_dict_all(acc);
                                    lemma_wf_dict_all(next);
                                    assert forall|i: int| 0 <= i < next.len() implies wf(
                                        #[trigger] next[i].1,
                                    ) by {
                                        if exists|c: int| first_key_at(acc, key, c) {
                                            let c = choose|c: int| first_key_at(acc, key, c);
                                            if i != c {
                                                assert(next[i] == acc[i]);
                                            }
                                        } else if i < acc.len() {
                                            assert(next[i] == acc[i]);
                                        }
                                    }
                                    lemma_parse_dict_wf(s, r2, next);
                                }
                            },
                            _ => {
                                lemma_parse_dict_wf(s, r2, acc);
                            },
                        }
                    }
                }
            }
        }
    }
}

/// Whatever the decoder gives, encoded and decoded again, comes back the same.
pub proof fn lemma_redecode(s: Seq<u8>, p: int)
    ensures
        parse_value(s, p) matches Ok((v, _)) ==> parse_value(encode(v), 0) == Ok::<
            (Value, int),
            BencodeError,
        >((v, encode(v).len() as int)),
{
    lemma_parse_wf(s, p);
    if let Ok((v, _)) = parse_value(s, p) {
        lemma_decode_encode(v);
    }
}


/// `s` and `t` both hold at least `n` bytes, and the same first `n`.
pub open spec fn same_prefix(s: Seq<u8>, t: Seq<u8>, n: int) -> bool {
    &&& 0 <= n <= s.len()
    &&& n <= t.len()
    &&& forall|i: int| 0 <= i < n ==> s[i] == t[i]
}

/// A scan that finds its terminator reads nothing past it.
proof fn lemma_scan_same_prefix(s: Seq<u8>, t: Seq<u8>, q: int, term: u8)
    requires
        scan_digits(s, q, term) matches Scan::Found(j) && same_prefix(s, t, j + 1),
    ensures
        scan_digits(t, q, term) == scan_digits(s, q, term),
    decreases s.len() - q,
{
    lemma_scan_found(s, q, term);
    assert(s[q] == t[q]);
    if s[q] != term {
        lemma_scan_same_prefix(s, t, q + 1, term);
    }
}

/// A decoded value depends only on the bytes up to its end: any data with the same bytes
/// there decodes to the same value, ending at the same place.
pub proof fn lemma_parse_same_prefix(s: Seq<u8>, t: Seq<u8>, p: int)
    requires
        parse_value(s, p) matches Ok((_, q)) && same_prefix(s, t, q),
    ensures
        parse_value(t, p) == parse_value(s, p),
    decreases s.len() - p, 0int,
{
    lemma_parse_advances(s, p);
    assert(s[p] == t[p]);
    if s[p] == 105 {
        lemma_scan_found(s, p + 1, 101);
        lemma_scan_same_prefix(s, t, p + 1, 101);
        if let Scan::Found(j) = scan_digits(s, p + 1, 101) {
            assert(s.subrange(p + 1, j) =~= t.subrange(p + 1, j));
        }
    } else if s[p] == 108 {
        lemma_parse_list_same_prefix(s, t, p + 1, Seq::empty());
    } else if s[p] == 100 {
        lemma_parse_dict_same_prefix(s, t, p + 1, Seq::empty());
    } else if is_digit(s[p]) {
        lemma_scan_found(s, p, 58);
        if let Scan::Found(j) = scan_digits(s, p, 58) {
            lemma_scan_same_prefix(s, t, p, 58);
            let n = digits_value(s.subrange(p, j));
            assert(s.subrange(p, j) =~= t.subrange(p, j));
            assert(s.subrange(j + 1, j + 1 + n) =~= t.subrange(j + 1, j + 1 + n));
        }
    }
}

/// The list decoder reads nothing past the end of the list.
proof fn lemma_parse_list_same_prefix(s: Seq<u8>, t: Seq<u8>, q: int, acc: Seq<Value>)
    requires
        parse_list(s, q, acc) matches Ok((_, r)) && same_prefix(s, t, r),
    ensures
        parse_list(t, q, acc) == parse_list(s, q, acc),
    decreases s.len() - q, 1int,
{
    lemma_parse_list_advances(s, q, acc);
    assert(s[q] == t[q]);
    if s[q] != 101 {
        if let Ok((v, r)) = parse_value(s, q) {
            lemma_parse_list_advances(s, r, acc.push(v));
            lemma_parse_same_prefix(s, t, q);
            lemma_parse_list_same_prefix(s, t, r, acc.push(v));
        }
    }
}

/// The dictionary decoder reads nothing past the end of the dictionary.
proof fn lemma_parse_dict_same_prefix(
    s: Seq<u8>,
    t: Seq<u8>,
    q: int,
    acc: Seq<(Seq<char>, Value)>,
)
    requires
        parse_dict(s, q, acc) matches Ok((_, r)) && same_prefix(s, t, r),
    ensures
        parse_dict(t, q, acc) == parse_dict(s, q, acc),
    decreases s.len() - q, 1int,
{
    lemma_parse_dict_advances(s, q, acc);
    assert(s[q] == t[q]);
    if s[q] != 101 {
        if let Ok((k, r1)) = parse_value(s, q) {
            if let Ok((v, r2)) = parse_value(s, r1) {
                let next = match k {
                    Value::Bytes(b) => dict_insert(acc, decode_utf8(b), v),
                    _ => acc,
                };
                lemma_parse_dict_advances(s, r2, next);
                lemma_parse_advances(s, r1);
                lemma_parse_same_prefix(s, t, q);
                lemma_parse_same_prefix(s, t, r1);
                lemma_parse_dict_same_prefix(s, t, r2, next);
            }
        }
    }
}

/// The bytes after a value never change it: a value decoded from `s` is decoded from `s`
/// followed by anything, with the same end.
pub proof fn lemma_parse_extend(s: Seq<u8>, t: Seq<u8>, p: int)
    ensures
        parse_value(s, p) is Ok ==> parse_value(s + t, p) == parse_value(s, p),
{
    if let Ok((_, q)) = parse_value(s, p) {
        lemma_parse_advances(s, p);
        assert(same_prefix(s, s + t, q));
        lemma_parse_same_prefix(s, s + t, p);
    }
}

/// A truncated encoding is never accepted: decoding any strict prefix of the encoding of
/// a well-formed value fails.
pub proof fn lemma_truncated_rejected(v: Value, k: int)
    requires
        wf(v),
        0 <= k < encode(v).len(),
    ensures
        parse_value(encode(v).take(k), 0) is Err,
{
    let e = encode(v);
    let t = e.take(k);
    lemma_decode_encode(v);
    if let Ok((_, q)) = parse_value(t, 0) {
        lemma_parse_advances(t, 0);
        assert(same_prefix(t, e, q));
        lemma_parse_same_prefix(t, e, 0);
        assert(false);
    }
}

/// No integer in `v` is negative.
pub open spec fn nonneg_ints(v: Value) -> bool
    decreases v,
{
    match v {
        Value::Int(i) => 0 <= i,
        Value::Bytes(_) => true,
        Value::List(l) => nonneg_ints_list(l),
        Value::Dict(d) => nonneg_ints_dict(d),
    }
}

/// No item of `l` holds a negative integer.
pub open spec fn nonneg_ints_list(l: Seq<Value>) -> bool
    decreases l,
{
    l.len() == 0 || (nonneg_ints(l[0]) && nonneg_ints_list(l.subrange(1, l.len() as int)))
}

/// No value of `d` holds a negative integer.
pub open spec fn nonneg_ints_dict(d: Seq<(Seq<char>, Value)>) -> bool
    decreases d,
{
    d.len() == 0 || (nonneg_ints(d[0].1) && nonneg_ints_dict(d.subrange(1, d.len() as int)))
}

/// `nonneg_ints_list` holds exactly when it holds of every item.
proof fn lemma_nonneg_list_all(l: Seq<Value>)
    ensures
        nonneg_ints_list(l) <==> forall|i: int| 0 <= i < l.len() ==> nonneg_ints(#[trigger] l[i]),
    decreases l.len(),
{
    if l.len() > 0 {
        let rest = l.subrange(1, l.len() as int);
        lemma_nonneg_list_all(rest);
        if forall|i: int| 0 <= i < l.len() ==> nonneg_ints(#[trigger] l[i]) {
            assert forall|i: int| 0 <= i < rest.len() implies nonneg_ints(#[trigger] rest[i]) by {
                assert(rest[i] == l[i + 1]);
            }
        }
        if nonneg_ints_list(l) {
            assert forall|i: int| 0 <= i < l.len() implies nonneg_ints(#[trigger] l[i]) by {
                if i > 0 {
                    assert(l[i] == rest[i - 1]);
                }
            }
        }
    }
}

/// `nonneg_ints_dict` holds exactly when it holds of every value.
proof fn lemma_nonneg_dict_all(d: Seq<(Seq<char>, Value)>)
    ensures
        nonneg_ints_dict(d) <==> forall|i: int| 0 <= i < d.len() ==> nonneg_ints(#[trigger] d[i].1),
    decreases d.len(),
{
    if d.len() > 0 {
        let rest = d.subrange(1, d.len() as int);
        lemma_nonneg_dict_all(rest);
        if forall|i: int| 0 <= i < d.len() ==> nonneg_ints(#[trigger] d[i].1) {
            assert forall|i: int| 0 <= i < rest.len() implies nonneg_ints(#[trigger] rest[i].1) by {
                assert(rest[i] == d[i + 1]);
            }
        }
        if nonneg_ints_dict(d) {
            assert forall|i: int| 0 <= i < d.len() implies nonneg_ints(#[trigger] d[i].1) by {
                if i > 0 {
                    assert(d[i] == rest[i - 1]);
                }
            }
        }
    }
}

/// Whether no integer in `e` is negative, which for an entry is being well-formed: its
/// integers fit in an `i64`, and its dictionaries hold each key once.
fn entry_well_formed(e: &Entry) -> (r: bool)
    ensures
        r == nonneg_ints(e.view()),
        r == wf(e.view()),
    decreases e,
{
    match e {
        Entry::String(_) => true,
        Entry::Integer(i) => *i >= 0,
        Entry::List(l) => {
            proof {
                lemma_views_of(l@);
                lemma_wf_list_all(views_of(l@));
                lemma_nonneg_list_all(views_of(l@));
            }
            let mut i: usize = 0;
            while i < l.len()
                invariant
                    i <= l.len(),
                    *e == Entry::List(*l),
                    views_of(l@).len() == l@.len(),
                    forall|k: int| 0 <= k < l@.len() ==> #[trigger] views_of(l@)[k] == l@[k].view(),
                    forall|k: int|
                        0 <= k < i ==> wf(#[trigger] views_of(l@)[k]) && nonneg_ints(
                            views_of(l@)[k],
                        ),
                decreases l.len() - i,
            {
                proof {
                    assert(decreases_to!(*e => (*e)->List_0));
                    assert(decreases_to!(*l => l@));
                    assert(decreases_to!(l@ => l@[i as int]));
                }
                if !entry_well_formed(&l[i]) {
                    proof {
                        lemma_wf_list_all(views_of(l@));
                        lemma_nonneg_list_all(views_of(l@));
                        assert(!wf(views_of(l@)[i as int]));
                        assert(!nonneg_ints(views_of(l@)[i as int]));
                    }
                    return false;
                }
                i += 1;
            }
            true
        },
        Entry::Dict(dict) => {
            proof {
                use_type_invariant(dict);
            }
            let d = &dict.entries;
            proof {
                lemma_dict_views_of(d@);
                lemma_wf_dict_all(dict_views_of(d@));
                lemma_nonneg_dict_all(dict_views_of(d@));
            }
            let mut i: usize = 0;
            while i < d.len()
                invariant
                    i <= d.len(),
                    *e == Entry::Dict(*dict),
                    dict.entries == *d,
                    dict_views_of(d@) == dict.entries_view(),
                    dict_views_of(d@).len() == d@.len(),
                    forall|k: int|
                        0 <= k < d@.len() ==> #[trigger] dict_views_of(d@)[k] == (
                            d@[k].0@,
                            d@[k].1.view(),
                        ),
                    forall|k: int|
                        0 <= k < i ==> wf(#[trigger] dict_views_of(d@)[k].1) && nonneg_ints(
                            dict_views_of(d@)[k].1,
                        ),
                decreases d.len() - i,
            {
                proof {
                    assert(decreases_to!(*e => (*e)->Dict_0));
                    assert(decreases_to!(*dict => dict.entries));
                    assert(decreases_to!(dict.entries => d@));
                    assert(decreases_to!(d@ => d@[i as int]));
                    assert(decreases_to!(d@[i as int] => d@[i as int].1));
                }
                if !entry_well_formed(&d[i].1) {
                    proof {
                        lemma_wf_dict_all(dict_views_of(d@));
                        lemma_nonneg_dict_all(dict_views_of(d@));
                        assert(!wf(dict_views_of(d@)[i as int].1));
                        assert(!nonneg_ints(dict_views_of(d@)[i as int].1));
                    }
                    return false;
                }
                i += 1;
            }
            true
        },
    }
}

impl Entry {
    /// Whether no integer in the entry is negative. Such an entry is well-formed (its
    /// dictionaries hold each key once), so decoding its encoding gives it back, ending
    /// at the end of the encoding, and no strict prefix of its encoding decodes.
    pub fn is_well_formed(&self) -> (r: bool)
        ensures
            r == nonneg_ints(self.view()),
            r == wf(self.view()),
            r ==> parse_value(encode(self.view()), 0) == Ok::<(Value, int), BencodeError>(
                (self.view(), encode(self.view()).len() as int),
            ),
            r ==> forall|k: int|
                0 <= k < encode(self.view()).len() ==> #[trigger] parse_value(
                    encode(self.view()).take(k),
                    0,
                ) is Err,
    {
        let r = entry_well_formed(self);
        proof {
            if r {
                lemma_decode_encode(self.view());
                assert forall|k: int| 0 <= k < encode(self.view()).len() implies #[trigger] parse_value(
                    encode(self.view()).take(k),
                    0,
                ) is Err by {
                    lemma_truncated_rejected(self.view(), k);
                }
            }
        }
        r
    }
}

/// A value found in a well-formed dictionary is well-formed.
pub proof fn lemma_lookup_wf(d: Seq<(Seq<char>, Value)>, k: Seq<char>)
    requires
        wf(Value::Dict(d)),
    ensures
        dict_lookup(d, k) matches Some(v) ==> wf(v),
{
    lemma_wf_dict_all(d);
    if exists|i: int| first_key_at(d, k, i) {
        let i = choose|i: int| first_key_at(d, k, i);
        assert(wf(d[i].1));
    }
}

} // verus!
