//! Byte-string helpers. Feature names, package names and archive paths are
//! `Vec<u8>`; these are the verified equality, copy and constant helpers the
//! rest of the crate builds on.

use vstd::prelude::*;

verus! {

/// The name of the base feature: the empty byte string.
pub open spec fn empty_name() -> Seq<u8> {
    Seq::<u8>::empty()
}

/// The name of the implicit default feature set: the ASCII bytes of
/// `default`.
pub open spec fn default_name() -> Seq<u8> {
    seq![100u8, 101u8, 102u8, 97u8, 117u8, 108u8, 116u8]
}

/// Byte-for-byte equality of two byte strings.
pub fn bytes_eq(a: &Vec<u8>, b: &Vec<u8>) -> (r: bool)
    ensures
        r == (a@ == b@),
{
    if a.len() != b.len() {
        proof {
            assert(a@.len() != b@.len());
        }
        return false;
    }
    let mut i: usize = 0;
    while i < a.len()
        invariant
            i <= a.len(),
            a.len() == b.len(),
            forall|j: int| 0 <= j < i ==> a@[j] == b@[j],
        decreases a.len() - i,
    {
        if a[i] != b[i] {
            return false;
        }
        i += 1;
    }
    proof {
        assert(a@ =~= b@);
    }
    true
}

/// A fresh copy of a byte string.
pub fn dup_bytes(v: &Vec<u8>) -> (r: Vec<u8>)
    ensures
        r@ == v@,
{
    let mut r: Vec<u8> = Vec::new();
    let mut i: usize = 0;
    while i < v.len()
        invariant
            i <= v.len(),
            r@ == v@.take(i as int),
        decreases v.len() - i,
    {
        r.push(v[i]);
        proof {
            assert(v@.take(i as int).push(v@[i as int]) =~= v@.take(i + 1 as int));
        }
        i += 1;
    }
    proof {
        assert(v@.take(v.len() as int) =~= v@);
    }
    r
}

/// A fresh copy of a list of byte strings.
pub fn dup_byte_list(v: &Vec<Vec<u8>>) -> (r: Vec<Vec<u8>>)
    ensures
        r.deep_view() == v.deep_view(),
{
    let mut r: Vec<Vec<u8>> = Vec::new();
    let mut i: usize = 0;
    while i < v.len()
        invariant
            i <= v.len(),
            r.deep_view() == v.deep_view().take(i as int),
        decreases v.len() - i,
    {
        let ghost prev = r.deep_view();
        let d = dup_bytes(&v[i]);
        r.push(d);
        proof {
            assert(r.deep_view() =~= prev.push(v.deep_view()[i as int]));
            assert(prev.push(v.deep_view()[i as int]) =~= v.deep_view().take(i + 1 as int));
        }
        i += 1;
    }
    proof {
        assert(v.deep_view().take(v.len() as int) =~= v.deep_view());
    }
    r
}

/// The name of the implicit default feature set, as a byte string.
pub fn default_name_vec() -> (r: Vec<u8>)
    ensures
        r@ == default_name(),
{
    let mut r: Vec<u8> = Vec::new();
    r.push(100);
    r.push(101);
    r.push(102);
    r.push(97);
    r.push(117);
    r.push(108);
    r.push(116);
    proof {
        assert(r@ =~= default_name());
    }
    r
}

/// True exactly when `n` is the name of the implicit default feature.
pub fn is_default_name(n: &Vec<u8>) -> (r: bool)
    ensures
        r == (n@ == default_name()),
{
    let r = n.len() == 7 && n[0] == 100 && n[1] == 101 && n[2] == 102 && n[3] == 97 && n[4] == 117
        && n[5] == 108 && n[6] == 116;
    proof {
        if r {
            assert(n@ =~= default_name());
        }
        if n@ == default_name() {
            assert(n@.len() == 7);
            assert(n@[0] == 100 && n@[1] == 101 && n@[2] == 102 && n@[3] == 97 && n@[4] == 117
                && n@[5] == 108 && n@[6] == 116);
        }
    }
    r
}

/// Membership of a byte string in a list of byte strings.
pub fn byte_list_contains(l: &Vec<Vec<u8>>, n: &Vec<u8>) -> (r: bool)
    ensures
        r == l.deep_view().contains(n@),
{
    let mut i: usize = 0;
    while i < l.len()
        invariant
            i <= l.len(),
            forall|j: int| 0 <= j < i ==> l.deep_view()[j] != n@,
        decreases l.len() - i,
    {
        proof {
            assert(l.deep_view()[i as int] == l@[i as int]@);
        }
        if bytes_eq(&l[i], n) {
            assert(l.deep_view()[i as int] == n@);
            return true;
        }
        i += 1;
    }
    false
}

} // verus!
