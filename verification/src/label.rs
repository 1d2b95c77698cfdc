//! Item labels and the order in which they are compared.
//!
//! An item is a string. Its mathematical value is the sequence of its
//! characters, and two items are ordered as their UTF-8 encodings are,
//! byte by byte.

use vstd::prelude::*;
use vstd::utf8::encode_utf8;

verus! {

/// The value of an item: the characters of its label.
pub type Label = Seq<char>;

/// The outcome of comparing two labels.
#[derive(Clone, Copy, Debug, PartialEq, Eq, Structural)]
pub enum Placement {
    Before,
    Same,
    After,
}

/// Strict lexicographic order on byte sequences: a proper prefix comes first,
/// otherwise the first differing byte decides.
pub open spec fn bytes_before(a: Seq<u8>, b: Seq<u8>) -> bool
    decreases a.len(),
{
    if b.len() == 0 {
        false
    } else if a.len() == 0 {
        true
    } else if a[0] != b[0] {
        a[0] < b[0]
    } else {
        bytes_before(a.drop_first(), b.drop_first())
    }
}

/// `a` sorts strictly before `b`.
pub open spec fn label_before(a: Label, b: Label) -> bool {
    bytes_before(encode_utf8(a), encode_utf8(b))
}

/// The labels of a sequence of items.
pub open spec fn labels_of(items: Seq<&str>) -> Seq<Label> {
    Seq::new(items.len(), |i: int| items[i]@)
}

/// A sequence of labels in strictly increasing order.
pub open spec fn strictly_increasing(keys: Seq<Label>) -> bool {
    forall|i: int, j: int|
        0 <= i < j < keys.len() ==> label_before(#[trigger] keys[i], #[trigger] keys[j])
}

pub proof fn lemma_bytes_irreflexive(a: Seq<u8>)
    ensures
        !bytes_before(a, a),
    decreases a.len(),
{
    if a.len() > 0 {
        lemma_bytes_irreflexive(a.drop_first());
    }
}

pub proof fn lemma_bytes_transitive(a: Seq<u8>, b: Seq<u8>, c: Seq<u8>)
    requires
        bytes_before(a, b),
        bytes_before(b, c),
    ensures
        bytes_before(a, c),
    decreases a.len(),
{
    if a.len() > 0 && b.len() > 0 && c.len() > 0 && a[0] == b[0] && b[0] == c[0] {
        lemma_bytes_transitive(a.drop_first(), b.drop_first(), c.drop_first());
    }
}

pub proof fn lemma_bytes_connected(a: Seq<u8>, b: Seq<u8>)
    ensures
        a == b || bytes_before(a, b) || bytes_before(b, a),
    decreases a.len(),
{
    if a.len() > 0 && b.len() > 0 && a[0] == b[0] {
        lemma_bytes_connected(a.drop_first(), b.drop_first());
        if a.drop_first() == b.drop_first() {
            assert(a =~= seq![a[0]] + a.drop_first());
            assert(b =~= seq![b[0]] + b.drop_first());
        }
    } else if a.len() == 0 && b.len() == 0 {
        assert(a =~= b);
    }
}

/// Dropping a common prefix changes neither the order nor equality.
pub proof fn lemma_bytes_skip(a: Seq<u8>, b: Seq<u8>, n: int)
    requires
        0 <= n <= a.len(),
        n <= b.len(),
        forall|k: int| 0 <= k < n ==> a[k] == b[k],
    ensures
        bytes_before(a, b) == bytes_before(a.skip(n), b.skip(n)),
        (a == b) == (a.skip(n) == b.skip(n)),
    decreases n,
{
    if n == 0 {
        assert(a.skip(0) =~= a);
        assert(b.skip(0) =~= b);
    } else {
        lemma_bytes_skip(a, b, n - 1);
        let x = a.skip(n - 1);
        let y = b.skip(n - 1);
        assert(x[0] == y[0]);
        assert(x.drop_first() =~= a.skip(n));
        assert(y.drop_first() =~= b.skip(n));
        if a.skip(n) == b.skip(n) {
            assert(x =~= seq![x[0]] + x.drop_first());
            assert(y =~= seq![y[0]] + y.drop_first());
        }
    }
}

/// A label is determined by its encoding.
pub proof fn lemma_encoding_injective(a: Label, b: Label)
    requires
        encode_utf8(a) == encode_utf8(b),
    ensures
        a == b,
{
    vstd::utf8::encode_utf8_decode_utf8(a);
    vstd::utf8::encode_utf8_decode_utf8(b);
}

/// No label sorts before itself.
pub proof fn lemma_label_irreflexive(a: Label)
    ensures
        !label_before(a, a),
{
    lemma_bytes_irreflexive(encode_utf8(a));
}

/// The label order is transitive.
pub proof fn lemma_label_transitive(a: Label, b: Label, c: Label)
    requires
        label_before(a, b),
        label_before(b, c),
    ensures
        label_before(a, c),
{
    lemma_bytes_transitive(encode_utf8(a), encode_utf8(b), encode_utf8(c));
}

/// Two labels never sort before each other.
pub proof fn lemma_label_asymmetric(a: Label, b: Label)
    requires
        label_before(a, b),
    ensures
        !label_before(b, a),
{
    if label_before(b, a) {
        lemma_label_transitive(a, b, a);
        lemma_label_irreflexive(a);
    }
}

/// Two different labels are ordered one way or the other.
pub proof fn lemma_label_connected(a: Label, b: Label)
    ensures
        a == b || label_before(a, b) || label_before(b, a),
{
    lemma_bytes_connected(encode_utf8(a), encode_utf8(b));
    if encode_utf8(a) == encode_utf8(b) {
        lemma_encoding_injective(a, b);
    }
}

/// Compares two items by label.
pub fn compare_labels(a: &str, b: &str) -> (r: Placement)
    ensures
        (r == Placement::Before) == label_before(a@, b@),
        (r == Placement::Same) == (a@ == b@),
        (r == Placement::After) == label_before(b@, a@),
{
    let x = a.as_bytes();
    let y = b.as_bytes();
    let mut i: usize = 0;
    while i < x.len() && i < y.len()
        invariant
            i <= x.len(),
            i <= y.len(),
            forall|k: int| 0 <= k < i ==> x@[k] == y@[k],
            x@ == encode_utf8(a@),
            y@ == encode_utf8(b@),
        decreases x.len() - i,
    {
        if x[i] != y[i] {
            proof {
                lemma_bytes_skip(x@, y@, i as int);
                lemma_bytes_skip(y@, x@, i as int);
                assert(x@.skip(i as int)[0] == x@[i as int]);
                assert(y@.skip(i as int)[0] == y@[i as int]);
            }
            if x[i] < y[i] {
                return Placement::Before;
            } else {
                return Placement::After;
            }
        }
        i += 1;
    }
    proof {
        lemma_bytes_skip(x@, y@, i as int);
        lemma_bytes_skip(y@, x@, i as int);
        if x.len() == y.len() {
            assert(x@.skip(i as int) =~= y@.skip(i as int));
            lemma_bytes_irreflexive(x@);
            lemma_encoding_injective(a@, b@);
        }
    }
    if x.len() < y.len() {
        Placement::Before
    } else if y.len() < x.len() {
        Placement::After
    } else {
        Placement::Same
    }
}

} // verus!
