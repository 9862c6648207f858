use vstd::prelude::*;
use vstd::utf8::{encode_utf8, encode_utf8_decode_utf8};

verus! {

/// A period: a value of an integer or a text time column.
#[derive(Debug, Clone, PartialEq, Eq)]
pub enum Period {
    Int(i64),
    Text(String),
}

/// Lexicographic order on byte strings (a proper prefix comes first).
pub open spec fn bytes_lt(a: Seq<u8>, b: Seq<u8>) -> bool
    decreases a.len(),
{
    if a.len() == 0 {
        b.len() > 0
    } else if b.len() == 0 {
        false
    } else if a[0] != b[0] {
        a[0] < b[0]
    } else {
        bytes_lt(a.drop_first(), b.drop_first())
    }
}

/// Text is ordered by its UTF-8 bytes, which is the order of its code points.
pub open spec fn text_lt(a: Seq<char>, b: Seq<char>) -> bool {
    bytes_lt(encode_utf8(a), encode_utf8(b))
}

/// Integers by value, text by `text_lt`; an integer comes before any text.
pub open spec fn period_lt(a: Period, b: Period) -> bool {
    match a {
        Period::Int(x) => match b {
            Period::Int(y) => x < y,
            Period::Text(_) => true,
        },
        Period::Text(s) => match b {
            Period::Int(_) => false,
            Period::Text(t) => text_lt(s@, t@),
        },
    }
}

/// Two periods name the same value.
pub open spec fn same_period(a: Period, b: Period) -> bool {
    match a {
        Period::Int(x) => match b {
            Period::Int(y) => x == y,
            Period::Text(_) => false,
        },
        Period::Text(s) => match b {
            Period::Int(_) => false,
            Period::Text(t) => s@ == t@,
        },
    }
}

proof fn lemma_bytes_lt(a: Seq<u8>, b: Seq<u8>, c: Seq<u8>)
    ensures
        bytes_lt(a, b) && bytes_lt(b, c) ==> bytes_lt(a, c),
        bytes_lt(a, b) ==> !bytes_lt(b, a),
        !bytes_lt(a, b) && !bytes_lt(b, a) ==> a == b,
    decreases a.len(),
{
    if a.len() > 0 && b.len() > 0 {
        if c.len() > 0 {
            lemma_bytes_lt(a.drop_first(), b.drop_first(), c.drop_first());
        } else {
            lemma_bytes_lt(a.drop_first(), b.drop_first(), b.drop_first());
        }
        if !bytes_lt(a, b) && !bytes_lt(b, a) {
            assert(a[0] == b[0]);
            assert(a =~= seq![a[0]] + a.drop_first());
            assert(b =~= seq![b[0]] + b.drop_first());
        }
    } else if a.len() == 0 && b.len() == 0 {
        assert(a =~= b);
    }
}

/// `period_lt` is a strict total order whose ties are exactly `same_period`.
pub proof fn lemma_period_order(a: Period, b: Period, c: Period)
    ensures
        period_lt(a, b) && period_lt(b, c) ==> period_lt(a, c),
        period_lt(a, b) ==> !period_lt(b, a),
        same_period(a, b) <==> !period_lt(a, b) && !period_lt(b, a),
        same_period(a, b) ==> same_period(b, a),
        same_period(a, b) && same_period(b, c) ==> same_period(a, c),
        same_period(a, b) && period_lt(b, c) ==> period_lt(a, c),
        same_period(a, b) && period_lt(c, b) ==> period_lt(c, a),
{
    match a {
        Period::Text(s) => match b {
            Period::Text(t) => {
                match c {
                    Period::Text(u) => {
                        lemma_bytes_lt(encode_utf8(s@), encode_utf8(t@), encode_utf8(u@));
                    },
                    Period::Int(_) => {
                        lemma_bytes_lt(encode_utf8(s@), encode_utf8(t@), encode_utf8(t@));
                    },
                }
                if encode_utf8(s@) == encode_utf8(t@) {
                    encode_utf8_decode_utf8(s@);
                    encode_utf8_decode_utf8(t@);
                }
            },
            Period::Int(_) => {},
        },
        Period::Int(_) => {},
    }
}

/// Decides `period_lt`.
pub fn period_less(a: &Period, b: &Period) -> (r: bool)
    ensures
        r == period_lt(*a, *b),
{
    match a {
        Period::Int(x) => match b {
            Period::Int(y) => *x < *y,
            Period::Text(_) => true,
        },
        Period::Text(s) => match b {
            Period::Int(_) => false,
            Period::Text(t) => bytes_less(s.as_str().as_bytes(), t.as_str().as_bytes()),
        },
    }
}

fn bytes_less(a: &[u8], b: &[u8]) -> (r: bool)
    ensures
        r == bytes_lt(a@, b@),
{
    let mut i: usize = 0;
    assert(a@.skip(0) =~= a@);
    assert(b@.skip(0) =~= b@);
    while i < a.len() && i < b.len()
        invariant
            0 <= i <= a@.len(),
            i <= b@.len(),
            bytes_lt(a@, b@) == bytes_lt(a@.skip(i as int), b@.skip(i as int)),
        decreases a@.len() - i,
    {
        if a[i] != b[i] {
            return a[i] < b[i];
        }
        assert(a@.skip(i as int).drop_first() =~= a@.skip(i + 1));
        assert(b@.skip(i as int).drop_first() =~= b@.skip(i + 1));
        i += 1;
    }
    i == a.len() && i < b.len()
}

/// Decides `same_period`.
pub fn period_equal(a: &Period, b: &Period) -> (r: bool)
    ensures
        r == same_period(*a, *b),
{
    match a {
        Period::Int(x) => match b {
            Period::Int(y) => *x == *y,
            Period::Text(_) => false,
        },
        Period::Text(s) => match b {
            Period::Int(_) => false,
            Period::Text(t) => *s == *t,
        },
    }
}

/// A copy of a period.
pub fn copy_period(p: &Period) -> (r: Period)
    ensures
        r == *p,
{
    match p {
        Period::Int(x) => Period::Int(*x),
        Period::Text(s) => Period::Text(s.clone()),
    }
}

/// `text_lt` is a strict total order on text.
pub proof fn lemma_text_order(a: Seq<char>, b: Seq<char>, c: Seq<char>)
    ensures
        text_lt(a, b) && text_lt(b, c) ==> text_lt(a, c),
        text_lt(a, b) ==> !text_lt(b, a),
        a != b ==> text_lt(a, b) || text_lt(b, a),
{
    lemma_bytes_lt(encode_utf8(a), encode_utf8(b), encode_utf8(c));
    if encode_utf8(a) == encode_utf8(b) {
        encode_utf8_decode_utf8(a);
        encode_utf8_decode_utf8(b);
    }
}

/// Decides `text_lt`.
pub fn text_less(a: &String, b: &String) -> (r: bool)
    ensures
        r == text_lt(a@, b@),
{
    bytes_less(a.as_str().as_bytes(), b.as_str().as_bytes())
}

/// Order on label parts: a summed-away part first, then values as text.
pub open spec fn part_lt(a: Option<Seq<char>>, b: Option<Seq<char>>) -> bool {
    match a {
        None => b is Some,
        Some(x) => match b {
            None => false,
            Some(y) => text_lt(x, y),
        },
    }
}

/// Lexicographic order on labels, part by part.
pub open spec fn label_lt(a: Seq<Option<Seq<char>>>, b: Seq<Option<Seq<char>>>) -> bool
    decreases a.len(),
{
    if a.len() == 0 || b.len() == 0 {
        a.len() < b.len()
    } else if a[0] != b[0] {
        part_lt(a[0], b[0])
    } else {
        label_lt(a.drop_first(), b.drop_first())
    }
}

/// `label_lt` is a strict total order on labels.
pub proof fn lemma_label_order(a: Seq<Option<Seq<char>>>, b: Seq<Option<Seq<char>>>, c: Seq<Option<Seq<char>>>)
    ensures
        label_lt(a, b) && label_lt(b, c) ==> label_lt(a, c),
        label_lt(a, b) ==> !label_lt(b, a),
        a != b ==> label_lt(a, b) || label_lt(b, a),
    decreases a.len(),
{
    if a.len() > 0 && b.len() > 0 && c.len() > 0 {
        lemma_label_order(a.drop_first(), b.drop_first(), c.drop_first());
        match a[0] {
            Some(x) => match b[0] {
                Some(y) => match c[0] {
                    Some(z) => lemma_text_order(x, y, z),
                    None => lemma_text_order(x, y, y),
                },
                None => {},
            },
            None => {},
        }
        match a[0] {
            Some(x) => match c[0] {
                Some(z) => lemma_text_order(x, z, z),
                None => {},
            },
            None => {},
        }
    } else if a.len() > 0 && b.len() > 0 {
        lemma_label_order(a.drop_first(), b.drop_first(), b.drop_first());
        match a[0] {
            Some(x) => match b[0] {
                Some(y) => lemma_text_order(x, y, y),
                None => {},
            },
            None => {},
        }
    }
    if a != b && a.len() > 0 && b.len() > 0 && a[0] == b[0] {
        assert(a =~= seq![a[0]] + a.drop_first());
        assert(b =~= seq![b[0]] + b.drop_first());
        assert(a.drop_first() != b.drop_first());
    }
    if a.len() == 0 && b.len() == 0 {
        assert(a =~= b);
    }
}

} // verus!
