//! Sorting of catalogue rows by a total preorder of each row type.

use crate::dblayer::{Collection, DirEntry, GlobFilter, GlobFilterToPattern, GlobPattern};
use crate::order::{
    bytes_le, bytes_lt, compare_names, lemma_le_transitive, lemma_lt_total, lemma_lt_transitive,
    name_key,
};
use vstd::prelude::*;

verus! {

broadcast use vstd::seq_lib::group_to_multiset_ensures;

/// A total preorder on rows, with an executable test.
pub trait RowOrder: Sized {
    spec fn sort_le(self, other: Self) -> bool;

    proof fn lemma_sort_le_total(a: Self, b: Self)
        ensures
            a.sort_le(b) || b.sort_le(a),
    ;

    proof fn lemma_sort_le_transitive(a: Self, b: Self, c: Self)
        requires
            a.sort_le(b),
            b.sort_le(c),
        ensures
            a.sort_le(c),
    ;

    fn sorts_no_later(&self, other: &Self) -> (r: bool)
        ensures
            r == self.sort_le(*other),
    ;
}

pub open spec fn is_sorted<T: RowOrder>(s: Seq<T>) -> bool {
    forall|i: int, j: int| 0 <= i < j < s.len() ==> (#[trigger] s[i]).sort_le(#[trigger] s[j])
}

proof fn lemma_insert_to_multiset<T>(s: Seq<T>, p: int, x: T)
    requires
        0 <= p <= s.len(),
    ensures
        s.insert(p, x).to_multiset() =~= s.to_multiset().insert(x),
{
    let t = s.insert(p, x);
    assert(t.remove(p) =~= s);
    assert(t.to_multiset().count(x) > 0) by {
        assert(t.contains(x)) by {
            assert(t[p] == x);
        }
    }
}

/// The rows in ascending order.
pub fn sort_rows<T: RowOrder>(rows: Vec<T>) -> (r: Vec<T>)
    ensures
        is_sorted(r@),
        r@.to_multiset() =~= rows@.to_multiset(),
{
    let mut rest = rows;
    let mut out: Vec<T> = Vec::new();
    while rest.len() > 0
        invariant
            is_sorted(out@),
            out@.to_multiset().add(rest@.to_multiset()) =~= rows@.to_multiset(),
        decreases rest.len(),
    {
        let ghost before = rest@;
        let x = rest.pop().unwrap();
        proof {
            assert(before =~= rest@.push(x));
        }
        let mut p: usize = 0;
        while p < out.len() && out[p].sorts_no_later(&x)
            invariant
                0 <= p <= out.len(),
                forall|i: int| 0 <= i < p ==> (#[trigger] out@[i]).sort_le(x),
            decreases out.len() - p,
        {
            p = p + 1;
        }
        let ghost old_out = out@;
        proof {
            if p < out.len() {
                T::lemma_sort_le_total(out@[p as int], x);
                assert forall|j: int| p <= j < out@.len() implies x.sort_le(#[trigger] out@[j]) by {
                    if j > p {
                        T::lemma_sort_le_transitive(x, out@[p as int], out@[j]);
                    }
                }
            }
            lemma_insert_to_multiset(old_out, p as int, x);
        }
        out.insert(p, x);
        proof {
            assert forall|i: int, j: int| 0 <= i < j < out@.len() implies (
            #[trigger] out@[i]).sort_le(#[trigger] out@[j]) by {
                if j < p {
                } else if j == p {
                    assert(out@[i] == old_out[i]);
                } else if i < p {
                    assert(out@[i] == old_out[i]);
                    assert(out@[j] == old_out[j - 1]);
                    T::lemma_sort_le_transitive(old_out[i], x, old_out[j - 1]);
                } else if i == p {
                    assert(out@[j] == old_out[j - 1]);
                } else {
                    assert(out@[i] == old_out[i - 1]);
                    assert(out@[j] == old_out[j - 1]);
                }
            }
        }
    }
    out
}

/// Collections sort by name.
impl RowOrder for Collection {
    open spec fn sort_le(self, other: Self) -> bool {
        bytes_le(name_key(self.coll_name@), name_key(other.coll_name@))
    }

    proof fn lemma_sort_le_total(a: Self, b: Self) {
        lemma_lt_total(name_key(a.coll_name@), name_key(b.coll_name@));
    }

    proof fn lemma_sort_le_transitive(a: Self, b: Self, c: Self) {
        lemma_le_transitive(
            name_key(a.coll_name@),
            name_key(b.coll_name@),
            name_key(c.coll_name@),
        );
    }

    fn sorts_no_later(&self, other: &Self) -> (r: bool) {
        compare_names(self.coll_name.as_str(), other.coll_name.as_str()) <= 0
    }
}

/// Directory entries sort by name; of two equal names the directory comes first.
impl RowOrder for DirEntry {
    open spec fn sort_le(self, other: Self) -> bool {
        let a = name_key(self.fs_name@);
        let b = name_key(other.fs_name@);
        bytes_lt(a, b) || (a == b && (self.is_dir || !other.is_dir))
    }

    proof fn lemma_sort_le_total(a: Self, b: Self) {
        lemma_lt_total(name_key(a.fs_name@), name_key(b.fs_name@));
    }

    proof fn lemma_sort_le_transitive(a: Self, b: Self, c: Self) {
        let (ka, kb, kc) = (name_key(a.fs_name@), name_key(b.fs_name@), name_key(c.fs_name@));
        if bytes_lt(ka, kb) && bytes_lt(kb, kc) {
            lemma_lt_transitive(ka, kb, kc);
        }
    }

    fn sorts_no_later(&self, other: &Self) -> (r: bool) {
        let c = compare_names(self.fs_name.as_str(), other.fs_name.as_str());
        if c == 0 {
            self.is_dir || !other.is_dir
        } else {
            c < 0
        }
    }
}

/// Patterns sort by their text.
impl RowOrder for GlobPattern {
    open spec fn sort_le(self, other: Self) -> bool {
        bytes_le(name_key(self.regexp@), name_key(other.regexp@))
    }

    proof fn lemma_sort_le_total(a: Self, b: Self) {
        lemma_lt_total(name_key(a.regexp@), name_key(b.regexp@));
    }

    proof fn lemma_sort_le_transitive(a: Self, b: Self, c: Self) {
        lemma_le_transitive(name_key(a.regexp@), name_key(b.regexp@), name_key(c.regexp@));
    }

    fn sorts_no_later(&self, other: &Self) -> (r: bool) {
        compare_names(self.regexp.as_str(), other.regexp.as_str()) <= 0
    }
}

/// Filters sort by name.
impl RowOrder for GlobFilter {
    open spec fn sort_le(self, other: Self) -> bool {
        bytes_le(name_key(self.name@), name_key(other.name@))
    }

    proof fn lemma_sort_le_total(a: Self, b: Self) {
        lemma_lt_total(name_key(a.name@), name_key(b.name@));
    }

    proof fn lemma_sort_le_transitive(a: Self, b: Self, c: Self) {
        lemma_le_transitive(name_key(a.name@), name_key(b.name@), name_key(c.name@));
    }

    fn sorts_no_later(&self, other: &Self) -> (r: bool) {
        compare_names(self.name.as_str(), other.name.as_str()) <= 0
    }
}

/// A filter's pattern references sort by position.
impl RowOrder for GlobFilterToPattern {
    open spec fn sort_le(self, other: Self) -> bool {
        self.position <= other.position
    }

    proof fn lemma_sort_le_total(a: Self, b: Self) {
    }

    proof fn lemma_sort_le_transitive(a: Self, b: Self, c: Self) {
    }

    fn sorts_no_later(&self, other: &Self) -> (r: bool) {
        self.position <= other.position
    }
}

/// A sorted listing of entries whose names are pairwise distinct is in
/// strictly ascending byte order of name, whatever their kinds.
pub proof fn lemma_sorted_entries_by_name(s: Seq<DirEntry>)
    requires
        is_sorted(s),
        forall|i: int, j: int| 0 <= i < j < s.len() ==> s[i].fs_name@ != s[j].fs_name@,
    ensures
        forall|i: int, j: int|
            0 <= i < j < s.len() ==> bytes_lt(name_key(s[i].fs_name@), name_key(s[j].fs_name@)),
{
    assert forall|i: int, j: int| 0 <= i < j < s.len() implies bytes_lt(
        name_key(s[i].fs_name@),
        name_key(s[j].fs_name@),
    ) by {
        assert(s[i].sort_le(s[j]));
        vstd::utf8::encode_utf8_decode_utf8(s[i].fs_name@);
        vstd::utf8::encode_utf8_decode_utf8(s[j].fs_name@);
    }
}

} // verus!
