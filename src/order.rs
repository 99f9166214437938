//! Canonical order of a torrent's files: lexicographic by path components,
//! each component compared byte by byte. It is the order of a depth-first
//! walk that visits the entries of each directory sorted by name, so the
//! file list, and with it the info-hash, does not depend on the order in
//! which a file system lists directories.

use vstd::prelude::*;
use vstd::utf8::encode_utf8;
use vstd::multiset::Multiset;
use crate::metadata::FileEntry;

verus! {

broadcast use vstd::seq_lib::group_to_multiset_ensures;

/// Strict byte-wise lexicographic order.
pub open spec fn bytes_lt(a: Seq<u8>, b: Seq<u8>) -> bool
    decreases a.len(),
{
    if a.len() == 0 {
        b.len() > 0
    } else if b.len() == 0 {
        false
    } else if a[0] != b[0] {
        a[0] < b[0]
    } else {
        bytes_lt(a.drop_first(), b.drop_first())
    }
}

/// Strict lexicographic order on paths, components compared by `bytes_lt`.
pub open spec fn path_lt(a: Seq<Seq<u8>>, b: Seq<Seq<u8>>) -> bool
    decreases a.len(),
{
    if a.len() == 0 {
        b.len() > 0
    } else if b.len() == 0 {
        false
    } else if a[0] != b[0] {
        bytes_lt(a[0], b[0])
    } else {
        path_lt(a.drop_first(), b.drop_first())
    }
}

/// The UTF-8 bytes of each path component.
pub open spec fn path_key(path: Seq<String>) -> Seq<Seq<u8>> {
    path.map_values(|s: String| encode_utf8(s@))
}

/// Whether entries are in canonical order.
pub open spec fn is_sorted(files: Seq<FileEntry>) -> bool {
    forall|i: int, j: int|
        0 <= i < j < files.len() ==> !path_lt(
            path_key(#[trigger] files[j].path@),
            path_key(#[trigger] files[i].path@),
        )
}

/// Whether no two entries share a path.
pub open spec fn distinct_paths(files: Seq<FileEntry>) -> bool {
    forall|i: int, j: int|
        0 <= i < files.len() && 0 <= j < files.len() && i != j ==> path_key(
            #[trigger] files[i].path@,
        ) != path_key(#[trigger] files[j].path@)
}

pub proof fn lemma_bytes_lt_transitive(a: Seq<u8>, b: Seq<u8>, c: Seq<u8>)
    requires
        bytes_lt(a, b),
        bytes_lt(b, c),
    ensures
        bytes_lt(a, c),
    decreases a.len(),
{
    if a.len() > 0 && b.len() > 0 && c.len() > 0 && a[0] == b[0] && b[0] == c[0] {
        lemma_bytes_lt_transitive(a.drop_first(), b.drop_first(), c.drop_first());
    }
}

pub proof fn lemma_bytes_lt_asymmetric(a: Seq<u8>, b: Seq<u8>)
    ensures
        !(bytes_lt(a, b) && bytes_lt(b, a)),
    decreases a.len(),
{
    if a.len() > 0 && b.len() > 0 && a[0] == b[0] {
        lemma_bytes_lt_asymmetric(a.drop_first(), b.drop_first());
    }
}

pub proof fn lemma_bytes_lt_total(a: Seq<u8>, b: Seq<u8>)
    requires
        a != b,
    ensures
        bytes_lt(a, b) || bytes_lt(b, a),
    decreases a.len(),
{
    if a.len() == 0 {
        assert(b.len() > 0) by {
            if b.len() == 0 {
                assert(a =~= b);
            }
        }
    } else if b.len() > 0 && a[0] == b[0] {
        assert(a.drop_first() != b.drop_first()) by {
            if a.drop_first() == b.drop_first() {
                assert(a =~= seq![a[0]] + a.drop_first());
                assert(b =~= seq![b[0]] + b.drop_first());
            }
        }
        lemma_bytes_lt_total(a.drop_first(), b.drop_first());
    }
}

pub proof fn lemma_path_lt_transitive(a: Seq<Seq<u8>>, b: Seq<Seq<u8>>, c: Seq<Seq<u8>>)
    requires
        path_lt(a, b),
        path_lt(b, c),
    ensures
        path_lt(a, c),
    decreases a.len(),
{
    if a.len() > 0 && b.len() > 0 && c.len() > 0 {
        if a[0] == b[0] && b[0] == c[0] {
            lemma_path_lt_transitive(a.drop_first(), b.drop_first(), c.drop_first());
        } else if a[0] != b[0] && b[0] != c[0] {
            lemma_bytes_lt_transitive(a[0], b[0], c[0]);
            lemma_bytes_lt_asymmetric(a[0], c[0]);
            if a[0] == c[0] {
                lemma_bytes_lt_asymmetric(a[0], b[0]);
            }
        }
    }
}

pub proof fn lemma_path_lt_asymmetric(a: Seq<Seq<u8>>, b: Seq<Seq<u8>>)
    ensures
        !(path_lt(a, b) && path_lt(b, a)),
    decreases a.len(),
{
    if a.len() > 0 && b.len() > 0 {
        if a[0] == b[0] {
            lemma_path_lt_asymmetric(a.drop_first(), b.drop_first());
        } else {
            lemma_bytes_lt_asymmetric(a[0], b[0]);
        }
    }
}

pub proof fn lemma_path_lt_total(a: Seq<Seq<u8>>, b: Seq<Seq<u8>>)
    requires
        a != b,
    ensures
        path_lt(a, b) || path_lt(b, a),
    decreases a.len(),
{
    if a.len() == 0 {
        assert(b.len() > 0) by {
            if b.len() == 0 {
                assert(a =~= b);
            }
        }
    } else if b.len() > 0 {
        if a[0] == b[0] {
            assert(a.drop_first() != b.drop_first()) by {
                if a.drop_first() == b.drop_first() {
                    assert(a =~= seq![a[0]] + a.drop_first());
                    assert(b =~= seq![b[0]] + b.drop_first());
                }
            }
            lemma_path_lt_total(a.drop_first(), b.drop_first());
        } else {
            lemma_bytes_lt_total(a[0], b[0]);
        }
    }
}

/// Listing order does not matter: two lists of the same entries with
/// distinct paths, both in canonical order, are the same list. Hence the
/// file list sorted by `sort_file_entries`, the piece layout and the
/// info-hash come out the same however the directories were listed.
pub proof fn lemma_file_order_canonical(a: Seq<FileEntry>, b: Seq<FileEntry>)
    requires
        a.to_multiset() == b.to_multiset(),
        distinct_paths(a),
        is_sorted(a),
        is_sorted(b),
    ensures
        a == b,
    decreases a.len(),
{
    vstd::seq_lib::to_multiset_len(a);
    vstd::seq_lib::to_multiset_len(b);
    if a.len() > 0 {
        assert(b.to_multiset().contains(a[0]));
        assert(a.to_multiset().contains(b[0]));
        let k = choose|k: int| 0 <= k < b.len() && b[k] == a[0];
        let m = choose|m: int| 0 <= m < a.len() && a[m] == b[0];
        let ka = path_key(a[0].path@);
        let kb = path_key(b[0].path@);
        if ka != kb {
            lemma_path_lt_total(ka, kb);
            if path_lt(ka, kb) {
                assert(m > 0);
                assert(!path_lt(path_key(a[m].path@), path_key(a[0].path@)));
            } else {
                assert(k > 0);
                assert(!path_lt(path_key(b[k].path@), path_key(b[0].path@)));
            }
        }
        assert(m == 0);
        assert(a[0] == b[0]);
        vstd::seq_lib::to_multiset_remove(a, 0);
        vstd::seq_lib::to_multiset_remove(b, 0);
        assert(a.remove(0) =~= a.drop_first());
        assert(b.remove(0) =~= b.drop_first());
        let a1 = a.drop_first();
        let b1 = b.drop_first();
        assert(distinct_paths(a1)) by {
            assert forall|i: int, j: int|
                0 <= i < a1.len() && 0 <= j < a1.len() && i != j implies path_key(
                #[trigger] a1[i].path@,
            ) != path_key(#[trigger] a1[j].path@) by {
                assert(a1[i] == a[i + 1] && a1[j] == a[j + 1]);
            }
        }
        assert(is_sorted(a1)) by {
            assert forall|i: int, j: int| 0 <= i < j < a1.len() implies !path_lt(
                path_key(#[trigger] a1[j].path@),
                path_key(#[trigger] a1[i].path@),
            ) by {
                assert(a1[i] == a[i + 1] && a1[j] == a[j + 1]);
            }
        }
        assert(is_sorted(b1)) by {
            assert forall|i: int, j: int| 0 <= i < j < b1.len() implies !path_lt(
                path_key(#[trigger] b1[j].path@),
                path_key(#[trigger] b1[i].path@),
            ) by {
                assert(b1[i] == b[i + 1] && b1[j] == b[j + 1]);
            }
        }
        lemma_file_order_canonical(a1, b1);
        assert(a =~= b) by {
            assert forall|i: int| 0 <= i < a.len() implies a[i] == b[i] by {
                if i > 0 {
                    assert(a[i] == a1[i - 1] && b[i] == b1[i - 1]);
                }
            }
        }
    } else {
        assert(a =~= b);
    }
}

/// Whether `a` comes strictly before `b` byte by byte.
pub fn bytes_less(a: &[u8], b: &[u8]) -> (r: bool)
    ensures
        r == bytes_lt(a@, b@),
{
    let mut i: usize = 0;
    assert(a@.skip(0) =~= a@);
    assert(b@.skip(0) =~= b@);
    while i < a.len() && i < b.len()
        invariant
            0 <= i <= a@.len(),
            i <= b@.len(),
            bytes_lt(a@, b@) == bytes_lt(a@.skip(i as int), b@.skip(i as int)),
        decreases a@.len() - i,
    {
        if a[i] != b[i] {
            return a[i] < b[i];
        }
        assert(a@.skip(i as int).drop_first() =~= a@.skip(i + 1));
        assert(b@.skip(i as int).drop_first() =~= b@.skip(i + 1));
        i = i + 1;
    }
    i == a.len() && i < b.len()
}

/// Whether path `a` comes strictly before path `b` in canonical order.
pub fn path_less(a: &Vec<String>, b: &Vec<String>) -> (r: bool)
    ensures
        r == path_lt(path_key(a@), path_key(b@)),
{
    let ghost ka = path_key(a@);
    let ghost kb = path_key(b@);
    let mut i: usize = 0;
    assert(ka.skip(0) =~= ka);
    assert(kb.skip(0) =~= kb);
    while i < a.len() && i < b.len()
        invariant
            ka == path_key(a@),
            kb == path_key(b@),
            0 <= i <= a@.len(),
            i <= b@.len(),
            path_lt(ka, kb) == path_lt(ka.skip(i as int), kb.skip(i as int)),
        decreases a@.len() - i,
    {
        let x = a[i].as_str().as_bytes();
        let y = b[i].as_str().as_bytes();
        proof {
            vstd::utf8::encode_utf8_decode_utf8(a@[i as int]@);
            vstd::utf8::encode_utf8_decode_utf8(b@[i as int]@);
        }
        if !(a[i] == b[i]) {
            return bytes_less(x, y);
        }
        assert(ka.skip(i as int).drop_first() =~= ka.skip(i + 1));
        assert(kb.skip(i as int).drop_first() =~= kb.skip(i + 1));
        i = i + 1;
    }
    i == a.len() && i < b.len()
}

/// The entries in canonical order: lexicographic by path components, each
/// compared byte by byte; entries with the same path keep no particular order.
pub fn sort_file_entries(files: Vec<FileEntry>) -> (r: Vec<FileEntry>)
    ensures
        r@.to_multiset() == files@.to_multiset(),
        is_sorted(r@),
{
    let mut rest = files;
    let mut out: Vec<FileEntry> = Vec::new();
    while rest.len() > 0
        invariant
            out@.to_multiset().add(rest@.to_multiset()) == files@.to_multiset(),
            is_sorted(out@),
            forall|i: int, j: int|
                0 <= i < out@.len() && 0 <= j < rest@.len() ==> !path_lt(
                    path_key(#[trigger] rest@[j].path@),
                    path_key(#[trigger] out@[i].path@),
                ),
        decreases rest@.len(),
    {
        let mut best: usize = 0;
        let mut j: usize = 1;
        proof {
            lemma_path_lt_asymmetric(path_key(rest@[0].path@), path_key(rest@[0].path@));
        }
        while j < rest.len()
            invariant
                0 <= best < rest@.len(),
                1 <= j <= rest@.len(),
                forall|k: int|
                    0 <= k < j ==> !path_lt(
                        path_key(#[trigger] rest@[k].path@),
                        path_key(rest@[best as int].path@),
                    ),
            decreases rest@.len() - j,
        {
            if path_less(&rest[j].path, &rest[best].path) {
                proof {
                    assert forall|k: int| 0 <= k < j + 1 implies !path_lt(
                        path_key(#[trigger] rest@[k].path@),
                        path_key(rest@[j as int].path@),
                    ) by {
                        if k < j && path_lt(path_key(rest@[k].path@), path_key(rest@[j as int].path@)) {
                            lemma_path_lt_transitive(
                                path_key(rest@[k].path@),
                                path_key(rest@[j as int].path@),
                                path_key(rest@[best as int].path@),
                            );
                        }
                        if k == j {
                            lemma_path_lt_asymmetric(path_key(rest@[k].path@), path_key(rest@[k].path@));
                        }
                    }
                }
                best = j;
            }
            j = j + 1;
        }
        let ghost before_rest = rest@;
        let ghost before_out = out@;
        let chosen = rest.remove(best);
        proof {
            vstd::seq_lib::to_multiset_remove(before_rest, best as int);
        }
        out.push(chosen);
        proof {
            assert(out@ == before_out.push(chosen));
            assert(is_sorted(out@)) by {
                assert forall|i: int, j: int| 0 <= i < j < out@.len() implies !path_lt(
                    path_key(#[trigger] out@[j].path@),
                    path_key(#[trigger] out@[i].path@),
                ) by {
                    if j == before_out.len() {
                        assert(out@[j] == before_rest[best as int]);
                        assert(out@[i] == before_out[i]);
                    } else {
                        assert(out@[j] == before_out[j] && out@[i] == before_out[i]);
                    }
                }
            }
            assert forall|i: int, j: int|
                0 <= i < out@.len() && 0 <= j < rest@.len() implies !path_lt(
                path_key(#[trigger] rest@[j].path@),
                path_key(#[trigger] out@[i].path@),
            ) by {
                let jj = if j < best { j } else { j + 1 };
                assert(rest@[j] == before_rest[jj]);
                if i < before_out.len() {
                    assert(out@[i] == before_out[i]);
                } else {
                    assert(out@[i] == before_rest[best as int]);
                }
            }
            assert(out@.to_multiset().add(rest@.to_multiset()) =~= files@.to_multiset());
        }
    }
    assert(rest@.to_multiset() =~= Multiset::<FileEntry>::empty());
    assert(out@.to_multiset().add(Multiset::empty()) =~= out@.to_multiset());
    out
}

} // verus!
