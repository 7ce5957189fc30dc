//! Key and value capabilities that a skip list relies on: a strict total order on
//! the keys' views, and copies that keep the view.
use vstd::prelude::*;

verus! {

/// The outcome of comparing two keys.
#[derive(PartialEq, Eq, Structural, Debug, Clone, Copy)]
pub enum KeyOrder {
    Less,
    Equal,
    Greater,
}

/// A key of a skip list: its views are strictly and totally ordered by `key_lt`.
pub trait TypeSkipListKey: View + Sized {
    spec fn key_lt(a: Self::V, b: Self::V) -> bool;

    /// `key_lt` is irreflexive, transitive and total on distinct views.
    proof fn lemma_key_order(a: Self::V, b: Self::V, c: Self::V)
        ensures
            !Self::key_lt(a, a),
            Self::key_lt(a, b) && Self::key_lt(b, c) ==> Self::key_lt(a, c),
            a != b ==> Self::key_lt(a, b) || Self::key_lt(b, a),
    ;

    fn compare_key(&self, other: &Self) -> (r: KeyOrder)
        ensures
            r == KeyOrder::Less <==> Self::key_lt(self@, other@),
            r == KeyOrder::Equal <==> self@ == other@,
            r == KeyOrder::Greater <==> Self::key_lt(other@, self@),
    ;

    fn clone_key(&self) -> (r: Self)
        ensures
            r@ == self@,
    ;
}

/// A value of a skip list: it can be copied with its view kept.
pub trait TypeSkipListValue: View + Sized {
    fn clone_value(&self) -> (r: Self)
        ensures
            r@ == self@,
    ;
}

/// Lexicographic order on byte strings, looking from position `i` on.
pub open spec fn lex_lt_from(a: Seq<u8>, b: Seq<u8>, i: nat) -> bool
    decreases a.len() - i,
{
    if i >= a.len() {
        i < b.len()
    } else if i >= b.len() {
        false
    } else if a[i as int] < b[i as int] {
        true
    } else if a[i as int] > b[i as int] {
        false
    } else {
        lex_lt_from(a, b, i + 1)
    }
}

/// Lexicographic order on byte strings (the order of `<` on `Vec<u8>`).
pub open spec fn lex_lt(a: Seq<u8>, b: Seq<u8>) -> bool {
    lex_lt_from(a, b, 0)
}

/// `a` comes before `b` in dictionary order: `a` is a proper prefix of `b`, or at
/// the first place where they differ `a` has the smaller byte.
pub open spec fn dictionary_before(a: Seq<u8>, b: Seq<u8>) -> bool {
    ||| (a.len() < b.len() && a == b.subrange(0, a.len() as int))
    ||| exists|j: int|
        0 <= j < a.len() && j < b.len() && a.subrange(0, j) == b.subrange(0, j) && #[trigger] a[j]
            < b[j]
}

proof fn lemma_lex_from_dictionary(a: Seq<u8>, b: Seq<u8>, i: nat)
    requires
        i <= a.len(),
        i <= b.len(),
        a.subrange(0, i as int) == b.subrange(0, i as int),
    ensures
        lex_lt_from(a, b, i) == dictionary_before(a, b),
    decreases a.len() - i,
{
    assert forall|j: int| 0 <= j < i implies a[j] == b[j] by {
        assert(a.subrange(0, i as int)[j] == a[j]);
        assert(b.subrange(0, i as int)[j] == b[j]);
        assert(a.subrange(0, i as int)[j] == b.subrange(0, i as int)[j]);
    }
    if i >= a.len() {
        if a.len() < b.len() {
            assert(a =~= b.subrange(0, a.len() as int));
        }
        if exists|j: int|
            0 <= j < a.len() && j < b.len() && a.subrange(0, j) == b.subrange(0, j) && #[trigger] a[j]
                < b[j] {
            let j = choose|j: int|
                0 <= j < a.len() && j < b.len() && a.subrange(0, j) == b.subrange(0, j) && #[trigger] a[j]
                    < b[j];
            assert(a[j] == b[j]);
        }
    } else if i >= b.len() {
        if exists|j: int|
            0 <= j < a.len() && j < b.len() && a.subrange(0, j) == b.subrange(0, j) && #[trigger] a[j]
                < b[j] {
            let j = choose|j: int|
                0 <= j < a.len() && j < b.len() && a.subrange(0, j) == b.subrange(0, j) && #[trigger] a[j]
                    < b[j];
            assert(a[j] == b[j]);
        }
    } else if a[i as int] < b[i as int] {
        assert(a.subrange(0, i as int) == b.subrange(0, i as int));
        assert(a[i as int] < b[i as int]);
    } else if a[i as int] > b[i as int] {
        if a.len() < b.len() && a == b.subrange(0, a.len() as int) {
            assert(a[i as int] == b.subrange(0, a.len() as int)[i as int]);
        }
        if exists|j: int|
            0 <= j < a.len() && j < b.len() && a.subrange(0, j) == b.subrange(0, j) && #[trigger] a[j]
                < b[j] {
            let j = choose|j: int|
                0 <= j < a.len() && j < b.len() && a.subrange(0, j) == b.subrange(0, j) && #[trigger] a[j]
                    < b[j];
            if j > i {
                assert(a.subrange(0, j)[i as int] == b.subrange(0, j)[i as int]);
            } else if j < i {
                assert(a[j] == b[j]);
            }
        }
    } else {
        assert(a.subrange(0, i + 1int) =~= b.subrange(0, i + 1int)) by {
            assert forall|j: int| 0 <= j < i + 1 implies #[trigger] a.subrange(0, i + 1int)[j] == b.subrange(0, i + 1int)[j] by {
                if j < i {
                    assert(a[j] == b[j]);
                }
            }
        }
        lemma_lex_from_dictionary(a, b, i + 1);
    }
}

/// The order on byte-string keys is dictionary order, the order of `<` on
/// `Vec<u8>`: a proper prefix comes first, and otherwise the first differing byte
/// decides.
pub proof fn lemma_lex_lt_is_dictionary(a: Seq<u8>, b: Seq<u8>)
    ensures
        lex_lt(a, b) == dictionary_before(a, b),
        <Vec<u8> as TypeSkipListKey>::key_lt(a, b) == dictionary_before(a, b),
{
    assert(a.subrange(0, 0) =~= b.subrange(0, 0));
    lemma_lex_from_dictionary(a, b, 0);
}

/// The order on `i32` keys is the numeric one.
pub proof fn lemma_i32_key_order(a: i32, b: i32)
    ensures
        <i32 as TypeSkipListKey>::key_lt(a, b) == (a < b),
{
}

proof fn lemma_lex_irreflexive(a: Seq<u8>, i: nat)
    ensures
        !lex_lt_from(a, a, i),
    decreases a.len() - i,
{
    if i < a.len() {
        lemma_lex_irreflexive(a, i + 1);
    }
}

proof fn lemma_lex_transitive(a: Seq<u8>, b: Seq<u8>, c: Seq<u8>, i: nat)
    requires
        lex_lt_from(a, b, i),
        lex_lt_from(b, c, i),
    ensures
        lex_lt_from(a, c, i),
    decreases a.len() - i,
{
    if i < a.len() && i < b.len() && i < c.len() && a[i as int] == b[i as int] && b[i as int]
        == c[i as int] {
        lemma_lex_transitive(a, b, c, i + 1);
    }
}

proof fn lemma_lex_total(a: Seq<u8>, b: Seq<u8>, i: nat)
    requires
        i <= a.len(),
        i <= b.len(),
        a.len() != b.len() || exists|j: int| i <= j < a.len() && a[j] != b[j],
    ensures
        lex_lt_from(a, b, i) || lex_lt_from(b, a, i),
    decreases a.len() - i,
{
    if i < a.len() && i < b.len() && a[i as int] == b[i as int] {
        assert(a.len() != b.len() || exists|j: int| i + 1 <= j < a.len() && a[j] != b[j]);
        lemma_lex_total(a, b, i + 1);
    }
}

impl TypeSkipListKey for Vec<u8> {
    open spec fn key_lt(a: Seq<u8>, b: Seq<u8>) -> bool {
        lex_lt(a, b)
    }

    proof fn lemma_key_order(a: Seq<u8>, b: Seq<u8>, c: Seq<u8>) {
        lemma_lex_irreflexive(a, 0);
        if lex_lt(a, b) && lex_lt(b, c) {
            lemma_lex_transitive(a, b, c, 0);
        }
        if a != b {
            if a.len() == b.len() && forall|j: int| 0 <= j < a.len() ==> a[j] == b[j] {
                assert(a =~= b);
            }
            lemma_lex_total(a, b, 0);
        }
    }

    fn compare_key(&self, other: &Vec<u8>) -> (r: KeyOrder) {
        let a = self;
        let b = other;
        let mut i: usize = 0;
        while i < a.len() && i < b.len() && a[i] == b[i]
            invariant
                i <= a@.len(),
                i <= b@.len(),
                forall|j: int| 0 <= j < i ==> a@[j] == b@[j],
                lex_lt(a@, b@) == lex_lt_from(a@, b@, i as nat),
                lex_lt(b@, a@) == lex_lt_from(b@, a@, i as nat),
            decreases a@.len() - i,
        {
            i = i + 1;
        }
        proof {
            lemma_lex_irreflexive(a@, 0);
        }
        if i == a.len() && i == b.len() {
            assert(a@ =~= b@);
            KeyOrder::Equal
        } else if i == a.len() {
            KeyOrder::Less
        } else if i == b.len() {
            KeyOrder::Greater
        } else if a[i] < b[i] {
            KeyOrder::Less
        } else {
            KeyOrder::Greater
        }
    }

    fn clone_key(&self) -> (r: Vec<u8>) {
        copy_bytes(self)
    }
}

impl TypeSkipListValue for Vec<u8> {
    fn clone_value(&self) -> (r: Vec<u8>) {
        copy_bytes(self)
    }
}

impl TypeSkipListKey for i32 {
    open spec fn key_lt(a: i32, b: i32) -> bool {
        a < b
    }

    proof fn lemma_key_order(a: i32, b: i32, c: i32) {
    }

    fn compare_key(&self, other: &i32) -> (r: KeyOrder) {
        if *self < *other {
            KeyOrder::Less
        } else if *self == *other {
            KeyOrder::Equal
        } else {
            KeyOrder::Greater
        }
    }

    fn clone_key(&self) -> (r: i32) {
        *self
    }
}

impl TypeSkipListValue for i32 {
    fn clone_value(&self) -> (r: i32) {
        *self
    }
}

/// A fresh vector with the same bytes.
pub fn copy_bytes(src: &[u8]) -> (out: Vec<u8>)
    ensures
        out@ == src@,
{
    let mut out: Vec<u8> = Vec::with_capacity(src.len());
    let mut i: usize = 0;
    while i < src.len()
        invariant
            i <= src@.len(),
            out@ == src@.subrange(0, i as int),
        decreases src@.len() - i,
    {
        out.push(src[i]);
        i = i + 1;
    }
    assert(out@ =~= src@);
    out
}

} // verus!
