//! The order of entity names: that of their UTF-8 bytes, read left to right.

use vstd::prelude::*;

verus! {

/// Whether the byte string `a` comes strictly before `b`: at the first place
/// where they differ `a` has the smaller byte, or `a` ends there and `b` goes on.
pub open spec fn bytes_before(a: Seq<u8>, b: Seq<u8>) -> bool {
    exists|k: int|
        {
            &&& 0 <= k <= a.len()
            &&& k <= b.len()
            &&& #[trigger] a.take(k) == b.take(k)
            &&& if k == a.len() {
                k < b.len()
            } else {
                k < b.len() && a[k] < b[k]
            }
        }
}

/// Whether the name `a` comes strictly before the name `b`.
pub open spec fn name_before(a: Seq<char>, b: Seq<char>) -> bool {
    bytes_before(vstd::utf8::encode_utf8(a), vstd::utf8::encode_utf8(b))
}

/// Where one name stands with respect to another.
#[derive(Clone, Copy, Debug, PartialEq, Eq)]
pub enum Place {
    Before,
    Same,
    After,
}

/// The place of `a` with respect to `b`.
pub open spec fn place_of(a: Seq<char>, b: Seq<char>) -> Place {
    if a == b {
        Place::Same
    } else if name_before(a, b) {
        Place::Before
    } else {
        Place::After
    }
}

/// No byte string comes before itself.
pub proof fn lemma_bytes_irreflexive(a: Seq<u8>)
    ensures
        !bytes_before(a, a),
{
}

/// Of two byte strings at most one comes before the other.
pub proof fn lemma_bytes_asymmetric(a: Seq<u8>, b: Seq<u8>)
    requires
        bytes_before(a, b),
    ensures
        !bytes_before(b, a),
{
    let k = choose|k: int|
        {
            &&& 0 <= k <= a.len()
            &&& k <= b.len()
            &&& #[trigger] a.take(k) == b.take(k)
            &&& if k == a.len() {
                k < b.len()
            } else {
                k < b.len() && a[k] < b[k]
            }
        };
    if bytes_before(b, a) {
        let j = choose|j: int|
            {
                &&& 0 <= j <= b.len()
                &&& j <= a.len()
                &&& #[trigger] b.take(j) == a.take(j)
                &&& if j == b.len() {
                    j < a.len()
                } else {
                    j < a.len() && b[j] < a[j]
                }
            };
        if j < k {
            assert(a.take(k)[j] == b.take(k)[j]);
        } else if k < j {
            assert(b.take(j)[k] == a.take(j)[k]);
        }
    }
}

/// The order of byte strings is transitive.
pub proof fn lemma_bytes_transitive(a: Seq<u8>, b: Seq<u8>, c: Seq<u8>)
    requires
        bytes_before(a, b),
        bytes_before(b, c),
    ensures
        bytes_before(a, c),
{
    let k = choose|k: int|
        {
            &&& 0 <= k <= a.len()
            &&& k <= b.len()
            &&& #[trigger] a.take(k) == b.take(k)
            &&& if k == a.len() {
                k < b.len()
            } else {
                k < b.len() && a[k] < b[k]
            }
        };
    let j = choose|j: int|
        {
            &&& 0 <= j <= b.len()
            &&& j <= c.len()
            &&& #[trigger] b.take(j) == c.take(j)
            &&& if j == b.len() {
                j < c.len()
            } else {
                j < c.len() && b[j] < c[j]
            }
        };
    let m = if k <= j { k } else { j };
    assert(a.take(m) =~= c.take(m)) by {
        assert forall|i: int| 0 <= i < m implies a[i] == c[i] by {
            assert(a.take(k)[i] == b.take(k)[i]);
            assert(b.take(j)[i] == c.take(j)[i]);
        }
    }
    if k < j {
        assert(b.take(j)[k] == c.take(j)[k]);
    } else if j < k {
        assert(a.take(k)[j] == b.take(k)[j]);
    }
}

/// Two names with the same bytes are the same name.
pub proof fn lemma_bytes_decide_name(a: Seq<char>, b: Seq<char>)
    requires
        vstd::utf8::encode_utf8(a) == vstd::utf8::encode_utf8(b),
    ensures
        a == b,
{
    vstd::utf8::encode_utf8_decode_utf8(a);
    vstd::utf8::encode_utf8_decode_utf8(b);
}

/// Finds the place of the name `a` with respect to the name `b`.
pub fn place(a: &str, b: &str) -> (r: Place)
    ensures
        r == place_of(a@, b@),
        r == Place::Before <==> name_before(a@, b@),
        r == Place::Same <==> a@ == b@,
        r == Place::After <==> name_before(b@, a@),
{
    let x = a.as_bytes();
    let y = b.as_bytes();
    let mut i: usize = 0;
    assert(x@.take(0) =~= y@.take(0));
    while i < x.len() && i < y.len()
        invariant
            i <= x@.len(),
            i <= y@.len(),
            x@.take(i as int) == y@.take(i as int),
            x@ == vstd::utf8::encode_utf8(a@),
            y@ == vstd::utf8::encode_utf8(b@),
        decreases x@.len() - i,
    {
        if x[i] < y[i] {
            proof {
                lemma_bytes_asymmetric(x@, y@);
                if a@ == b@ {
                    lemma_bytes_irreflexive(x@);
                }
            }
            return Place::Before;
        }
        if y[i] < x[i] {
            proof {
                assert(y@.take(i as int) == x@.take(i as int));
                lemma_bytes_asymmetric(y@, x@);
                if a@ == b@ {
                    lemma_bytes_irreflexive(x@);
                }
            }
            return Place::After;
        }
        assert(x@.take(i as int + 1) =~= y@.take(i as int + 1)) by {
            assert forall|j: int| 0 <= j < i + 1 implies x@[j] == y@[j] by {
                if j < i {
                    assert(x@.take(i as int)[j] == y@.take(i as int)[j]);
                }
            }
        }
        i = i + 1;
    }
    if i < y.len() {
        proof {
            lemma_bytes_asymmetric(x@, y@);
            if a@ == b@ {
                lemma_bytes_irreflexive(x@);
            }
        }
        Place::Before
    } else if i < x.len() {
        proof {
            assert(y@.take(i as int) == x@.take(i as int));
            lemma_bytes_asymmetric(y@, x@);
            if a@ == b@ {
                lemma_bytes_irreflexive(x@);
            }
        }
        Place::After
    } else {
        proof {
            assert(x@.take(i as int) =~= x@);
            assert(y@.take(i as int) =~= y@);
            lemma_bytes_decide_name(a@, b@);
            lemma_bytes_irreflexive(x@);
        }
        Place::Same
    }
}

/// Whether two names are the same.
pub fn same_name(a: &str, b: &str) -> (same: bool)
    ensures
        same <==> a@ == b@,
{
    match place(a, b) {
        Place::Same => true,
        _ => false,
    }
}

} // verus!
