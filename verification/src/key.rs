//! Structural values (symbol, group and time labels) and their total order.
//!
//! A key is either an integer (integer, date and datetime columns are held by
//! their physical integer) or a string. Strings are ordered by their UTF-8
//! bytes, integers numerically, and every integer orders before every string.
use vstd::prelude::*;
use vstd::utf8::*;

verus! {

/// One structural value of a panel.
#[derive(Debug, Clone, PartialEq)]
pub enum Key {
    Int(i64),
    Str(String),
}

/// The mathematical value of a [`Key`].
pub enum KeyView {
    Int(i64),
    Str(Seq<char>),
}

impl View for Key {
    type V = KeyView;

    open spec fn view(&self) -> KeyView {
        match self {
            Key::Int(v) => KeyView::Int(*v),
            Key::Str(s) => KeyView::Str(s@),
        }
    }
}

/// The values of a sequence of keys.
pub open spec fn views(s: Seq<Key>) -> Seq<KeyView> {
    s.map_values(|k: Key| k@)
}

/// The three outcomes of a comparison.
#[derive(PartialEq, Eq, Structural, Clone, Copy, Debug)]
pub enum Cmp {
    Less,
    Equal,
    Greater,
}

/// Strict lexicographic order on byte strings.
pub open spec fn bytes_lt(a: Seq<u8>, b: Seq<u8>) -> bool
    decreases a.len(),
{
    if b.len() == 0 {
        false
    } else if a.len() == 0 {
        true
    } else if a[0] < b[0] {
        true
    } else if a[0] > b[0] {
        false
    } else {
        bytes_lt(a.drop_first(), b.drop_first())
    }
}

/// Strict order on keys.
pub open spec fn key_lt(a: KeyView, b: KeyView) -> bool {
    match (a, b) {
        (KeyView::Int(x), KeyView::Int(y)) => x < y,
        (KeyView::Int(_), KeyView::Str(_)) => true,
        (KeyView::Str(_), KeyView::Int(_)) => false,
        (KeyView::Str(x), KeyView::Str(y)) => bytes_lt(encode_utf8(x), encode_utf8(y)),
    }
}

pub open spec fn key_le(a: KeyView, b: KeyView) -> bool {
    key_lt(a, b) || a == b
}

pub open spec fn cmp_spec(a: KeyView, b: KeyView) -> Cmp {
    if key_lt(a, b) {
        Cmp::Less
    } else if a == b {
        Cmp::Equal
    } else {
        Cmp::Greater
    }
}

pub proof fn lemma_bytes_lt_irreflexive(a: Seq<u8>)
    ensures
        !bytes_lt(a, a),
    decreases a.len(),
{
    if a.len() > 0 {
        lemma_bytes_lt_irreflexive(a.drop_first());
    }
}

pub proof fn lemma_bytes_lt_transitive(a: Seq<u8>, b: Seq<u8>, c: Seq<u8>)
    requires
        bytes_lt(a, b),
        bytes_lt(b, c),
    ensures
        bytes_lt(a, c),
    decreases a.len(),
{
    if a.len() > 0 && b.len() > 0 && c.len() > 0 && a[0] == b[0] && b[0] == c[0] {
        lemma_bytes_lt_transitive(a.drop_first(), b.drop_first(), c.drop_first());
    }
}

/// Two byte strings are equal or one is below the other.
pub proof fn lemma_bytes_lt_total(a: Seq<u8>, b: Seq<u8>)
    ensures
        bytes_lt(a, b) || bytes_lt(b, a) || a == b,
    decreases a.len(),
{
    if a.len() > 0 && b.len() > 0 && a[0] == b[0] {
        lemma_bytes_lt_total(a.drop_first(), b.drop_first());
        if a.drop_first() == b.drop_first() {
            assert(a =~= seq![a[0]] + a.drop_first());
            assert(b =~= seq![b[0]] + b.drop_first());
        }
    } else if a.len() == 0 && b.len() == 0 {
        assert(a =~= b);
    }
}

pub proof fn lemma_bytes_lt_asymmetric(a: Seq<u8>, b: Seq<u8>)
    requires
        bytes_lt(a, b),
    ensures
        !bytes_lt(b, a),
{
    if bytes_lt(b, a) {
        lemma_bytes_lt_transitive(a, b, a);
        lemma_bytes_lt_irreflexive(a);
    }
}

/// The facts about the key order that sorting relies on.
pub proof fn lemma_key_order()
    ensures
        forall|a: KeyView| !#[trigger] key_lt(a, a),
        forall|a: KeyView, b: KeyView, c: KeyView|
            #[trigger] key_lt(a, b) && #[trigger] key_lt(b, c) ==> key_lt(a, c),
        forall|a: KeyView, b: KeyView|
            #[trigger] key_lt(a, b) || #[trigger] key_lt(b, a) || a == b,
{
    assert forall|a: KeyView| !#[trigger] key_lt(a, a) by {
        if let KeyView::Str(x) = a {
            lemma_bytes_lt_irreflexive(encode_utf8(x));
        }
    }
    assert forall|a: KeyView, b: KeyView, c: KeyView|
        #[trigger] key_lt(a, b) && #[trigger] key_lt(b, c) implies key_lt(a, c) by {
        if let (KeyView::Str(x), KeyView::Str(y), KeyView::Str(z)) = (a, b, c) {
            lemma_bytes_lt_transitive(encode_utf8(x), encode_utf8(y), encode_utf8(z));
        }
    }
    assert forall|a: KeyView, b: KeyView|
        #[trigger] key_lt(a, b) || #[trigger] key_lt(b, a) || a == b by {
        if let (KeyView::Str(x), KeyView::Str(y)) = (a, b) {
            lemma_bytes_lt_total(encode_utf8(x), encode_utf8(y));
            if encode_utf8(x) == encode_utf8(y) {
                encode_utf8_decode_utf8(x);
                encode_utf8_decode_utf8(y);
            }
        }
    }
}

/// Compares two byte strings lexicographically.
pub fn compare_bytes(a: &[u8], b: &[u8]) -> (r: Cmp)
    ensures
        r == Cmp::Less <==> bytes_lt(a@, b@),
        r == Cmp::Greater <==> bytes_lt(b@, a@),
        r == Cmp::Equal <==> a@ == b@,
{
    let mut i: usize = 0;
    assert(a@.skip(0) =~= a@);
    assert(b@.skip(0) =~= b@);
    while i < a.len() && i < b.len()
        invariant
            i <= a.len(),
            i <= b.len(),
            a@.take(i as int) == b@.take(i as int),
            bytes_lt(a@, b@) == bytes_lt(a@.skip(i as int), b@.skip(i as int)),
            bytes_lt(b@, a@) == bytes_lt(b@.skip(i as int), a@.skip(i as int)),
        decreases a.len() - i,
    {
        if a[i] < b[i] {
            proof {
                lemma_bytes_lt_asymmetric(a@.skip(i as int), b@.skip(i as int));
                lemma_bytes_lt_irreflexive(a@);
            }
            return Cmp::Less;
        }
        if a[i] > b[i] {
            proof {
                lemma_bytes_lt_asymmetric(b@.skip(i as int), a@.skip(i as int));
                lemma_bytes_lt_irreflexive(a@);
            }
            return Cmp::Greater;
        }
        assert(a@.skip(i as int).drop_first() =~= a@.skip(i + 1));
        assert(b@.skip(i as int).drop_first() =~= b@.skip(i + 1));
        assert(a@.take(i + 1) =~= a@.take(i as int).push(a[i as int]));
        assert(b@.take(i + 1) =~= b@.take(i as int).push(b[i as int]));
        i = i + 1;
    }
    if a.len() == b.len() {
        assert(a@ =~= a@.take(i as int));
        assert(b@ =~= b@.take(i as int));
        proof {
            lemma_bytes_lt_irreflexive(a@);
        }
        Cmp::Equal
    } else if i == a.len() {
        assert(a@ =~= a@.take(i as int));
        assert(a@.skip(i as int).len() == 0);
        Cmp::Less
    } else {
        assert(b@ =~= b@.take(i as int));
        assert(b@.skip(i as int).len() == 0);
        Cmp::Greater
    }
}

impl Key {
    /// Compares two keys in the key order.
    pub fn compare(&self, other: &Key) -> (r: Cmp)
        ensures
            r == cmp_spec(self@, other@),
    {
        proof {
            lemma_key_order();
        }
        match (self, other) {
            (Key::Int(x), Key::Int(y)) => {
                if *x < *y {
                    Cmp::Less
                } else if *x == *y {
                    Cmp::Equal
                } else {
                    Cmp::Greater
                }
            },
            (Key::Int(_), Key::Str(_)) => Cmp::Less,
            (Key::Str(_), Key::Int(_)) => Cmp::Greater,
            (Key::Str(x), Key::Str(y)) => {
                let r = compare_bytes(x.as_str().as_bytes(), y.as_str().as_bytes());
                proof {
                    if r == Cmp::Equal {
                        encode_utf8_decode_utf8(x@);
                        encode_utf8_decode_utf8(y@);
                    }
                    if x@ == y@ {
                        lemma_bytes_lt_irreflexive(encode_utf8(x@));
                    }
                }
                r
            },
        }
    }

    /// Whether two keys hold the same value.
    pub fn same(&self, other: &Key) -> (r: bool)
        ensures
            r == (self@ == other@),
    {
        match (self, other) {
            (Key::Int(x), Key::Int(y)) => *x == *y,
            (Key::Str(x), Key::Str(y)) => *x == *y,
            _ => false,
        }
    }

    /// A copy of the key.
    pub fn duplicate(&self) -> (r: Key)
        ensures
            r@ == self@,
    {
        match self {
            Key::Int(v) => Key::Int(*v),
            Key::Str(s) => Key::Str(s.clone()),
        }
    }
}

} // verus!
