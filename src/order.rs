//! Byte-wise lexicographic order on names, as a relational store's binary
//! collation orders text.

use vstd::prelude::*;

verus! {

/// The bytes by which a name is ordered: its UTF-8 encoding.
pub open spec fn name_key(s: Seq<char>) -> Seq<u8> {
    vstd::utf8::encode_utf8(s)
}

/// `a` sorts strictly before `b`: at the first differing byte `a` is smaller,
/// or `a` is a proper prefix of `b`.
pub open spec fn bytes_lt(a: Seq<u8>, b: Seq<u8>) -> bool
    decreases a.len(),
{
    if a.len() == 0 {
        b.len() > 0
    } else if b.len() == 0 {
        false
    } else if a[0] != b[0] {
        a[0] < b[0]
    } else {
        bytes_lt(a.drop_first(), b.drop_first())
    }
}

pub open spec fn bytes_le(a: Seq<u8>, b: Seq<u8>) -> bool {
    bytes_lt(a, b) || a == b
}

pub proof fn lemma_lt_transitive(a: Seq<u8>, b: Seq<u8>, c: Seq<u8>)
    requires
        bytes_lt(a, b),
        bytes_lt(b, c),
    ensures
        bytes_lt(a, c),
    decreases a.len(),
{
    if a.len() > 0 && b.len() > 0 && c.len() > 0 && a[0] == b[0] && b[0] == c[0] {
        lemma_lt_transitive(a.drop_first(), b.drop_first(), c.drop_first());
    }
}

/// Two distinct byte strings are ordered one way or the other, never both.
pub proof fn lemma_lt_total(a: Seq<u8>, b: Seq<u8>)
    ensures
        a != b ==> (bytes_lt(a, b) || bytes_lt(b, a)),
        !(bytes_lt(a, b) && bytes_lt(b, a)),
    decreases a.len(),
{
    if a.len() == 0 && b.len() == 0 {
        assert(a =~= b);
    }
    if a.len() > 0 && b.len() > 0 && a[0] == b[0] {
        lemma_lt_total(a.drop_first(), b.drop_first());
        if a.drop_first() == b.drop_first() {
            assert(a =~= seq![a[0]] + a.drop_first());
            assert(b =~= seq![b[0]] + b.drop_first());
        }
    }
}

pub proof fn lemma_le_transitive(a: Seq<u8>, b: Seq<u8>, c: Seq<u8>)
    requires
        bytes_le(a, b),
        bytes_le(b, c),
    ensures
        bytes_le(a, c),
{
    if bytes_lt(a, b) && bytes_lt(b, c) {
        lemma_lt_transitive(a, b, c);
    }
}

proof fn lemma_lt_after_common_prefix(a: Seq<u8>, b: Seq<u8>, i: int)
    requires
        0 <= i <= a.len(),
        i <= b.len(),
        a.take(i) == b.take(i),
    ensures
        bytes_lt(a, b) == bytes_lt(a.skip(i), b.skip(i)),
    decreases i,
{
    if i > 0 {
        assert(a[0] == a.take(i)[0]);
        assert(b[0] == b.take(i)[0]);
        assert(a.drop_first().take(i - 1) =~= a.take(i).drop_first());
        assert(b.drop_first().take(i - 1) =~= b.take(i).drop_first());
        lemma_lt_after_common_prefix(a.drop_first(), b.drop_first(), i - 1);
        assert(a.drop_first().skip(i - 1) =~= a.skip(i));
        assert(b.drop_first().skip(i - 1) =~= b.skip(i));
    } else {
        assert(a.skip(0) =~= a);
        assert(b.skip(0) =~= b);
    }
}

/// Compares two names byte by byte: -1, 0 or 1 as `a` sorts before, equal to
/// or after `b`.
pub fn compare_names(a: &str, b: &str) -> (r: i8)
    ensures
        r == -1 <==> bytes_lt(name_key(a@), name_key(b@)),
        r == 0 <==> a@ == b@,
        r == 1 <==> bytes_lt(name_key(b@), name_key(a@)),
        r == -1 || r == 0 || r == 1,
{
    let x = a.as_bytes();
    let y = b.as_bytes();
    let ghost ka = name_key(a@);
    let ghost kb = name_key(b@);
    proof {
        vstd::utf8::encode_utf8_decode_utf8(a@);
        vstd::utf8::encode_utf8_decode_utf8(b@);
    }
    let mut i: usize = 0;
    while i < x.len() && i < y.len()
        invariant
            ka == name_key(a@),
            kb == name_key(b@),
            x@ == ka,
            y@ == kb,
            0 <= i <= x@.len(),
            i <= y@.len(),
            ka.take(i as int) == kb.take(i as int),
        decreases x@.len() - i,
    {
        if x[i] != y[i] {
            proof {
                lemma_lt_after_common_prefix(ka, kb, i as int);
                lemma_lt_after_common_prefix(kb, ka, i as int);
                assert(ka.skip(i as int)[0] == ka[i as int]);
                assert(kb.skip(i as int)[0] == kb[i as int]);
                assert(ka[i as int] != kb[i as int]);
            }
            if x[i] < y[i] {
                return -1;
            } else {
                return 1;
            }
        }
        assert(ka.take(i + 1) =~= ka.take(i as int).push(x[i as int]));
        assert(kb.take(i + 1) =~= kb.take(i as int).push(y[i as int]));
        i = i + 1;
    }
    proof {
        lemma_lt_after_common_prefix(ka, kb, i as int);
        lemma_lt_after_common_prefix(kb, ka, i as int);
        if ka.len() == kb.len() {
            assert(ka =~= ka.take(i as int));
            assert(kb =~= kb.take(i as int));
        }
    }
    if x.len() == y.len() {
        0
    } else if x.len() < y.len() {
        -1
    } else {
        1
    }
}

} // verus!
