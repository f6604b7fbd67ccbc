//! Directory entries as the library sees them, and the deterministic
//! name ordering that decides which file receives which planned instant.

use vstd::prelude::*;
use vstd::seq_lib::group_to_multiset_ensures;
use vstd::multiset::group_multiset_axioms;

verus! {

broadcast use group_to_multiset_ensures, group_multiset_axioms;

/// One file of the target directory.
#[derive(Debug)]
pub struct FileEntry {
    /// File name as raw bytes; entries are ordered by this key.
    pub name: Vec<u8>,
    /// Position of the entry in the original directory listing, so a
    /// caller can find the underlying handle again after sorting.
    pub handle: usize,
}

/// Byte-wise lexicographic `<=` on names.
pub open spec fn lex_le(a: Seq<u8>, b: Seq<u8>) -> bool
    decreases a.len(),
{
    if a.len() == 0 {
        true
    } else if b.len() == 0 {
        false
    } else if a[0] < b[0] {
        true
    } else if a[0] > b[0] {
        false
    } else {
        lex_le(a.drop_first(), b.drop_first())
    }
}

/// The entries stand in ascending name order.
pub open spec fn sorted_by_name(s: Seq<FileEntry>) -> bool {
    forall|i: int, j: int| 0 <= i < j < s.len() ==> lex_le(s[i].name@, s[j].name@)
}

/// No two entries share a name, as holds of any directory listing.
pub open spec fn distinct_names(s: Seq<FileEntry>) -> bool {
    forall|i: int, j: int| 0 <= i < j < s.len() ==> s[i].name@ != s[j].name@
}

/// Entries of equal name stand in ascending handle order. A listing
/// whose handles number the entries in listing order has this shape,
/// and a stable sort keeps it.
pub open spec fn stable_by_handle(s: Seq<FileEntry>) -> bool {
    forall|i: int, j: int|
        0 <= i < j < s.len() && s[i].name@ == s[j].name@ ==> s[i].handle < s[j].handle
}

/// Any two names are comparable.
proof fn lemma_lex_total(a: Seq<u8>, b: Seq<u8>)
    ensures
        lex_le(a, b) || lex_le(b, a),
    decreases a.len(),
{
    if a.len() == 0 {
    } else if b.len() == 0 {
    } else if a[0] == b[0] {
        lemma_lex_total(a.drop_first(), b.drop_first());
    }
}

/// Lexicographic order is transitive.
proof fn lemma_lex_trans(a: Seq<u8>, b: Seq<u8>, c: Seq<u8>)
    requires
        lex_le(a, b),
        lex_le(b, c),
    ensures
        lex_le(a, c),
    decreases a.len(),
{
    if a.len() == 0 {
    } else {
        if a[0] == b[0] && b[0] == c[0] {
            lemma_lex_trans(a.drop_first(), b.drop_first(), c.drop_first());
        }
    }
}

/// Lexicographic order is antisymmetric: names below each other are equal.
proof fn lemma_lex_antisym(a: Seq<u8>, b: Seq<u8>)
    requires
        lex_le(a, b),
        lex_le(b, a),
    ensures
        a =~= b,
    decreases a.len(),
{
    if a.len() == 0 {
    } else {
        lemma_lex_antisym(a.drop_first(), b.drop_first());
        assert forall|k: int| 0 <= k < a.len() implies a[k] == b[k] by {
            if k > 0 {
                assert(a[k] == a.drop_first()[k - 1]);
            }
        }
    }
}

/// Stepping over one equal byte keeps the comparison of the rest.
proof fn lemma_lex_skip(a: Seq<u8>, b: Seq<u8>, i: int)
    requires
        0 <= i < a.len(),
        i < b.len(),
        a[i] == b[i],
    ensures
        lex_le(a.skip(i), b.skip(i)) == lex_le(a.skip(i + 1), b.skip(i + 1)),
{
    let s = a.skip(i);
    let t = b.skip(i);
    assert(s[0] == a[i]);
    assert(t[0] == b[i]);
    assert(s.drop_first() =~= a.skip(i + 1));
    assert(t.drop_first() =~= b.skip(i + 1));
}

/// Byte-wise lexicographic comparison of two names.
pub fn lex_le_bytes(a: &Vec<u8>, b: &Vec<u8>) -> (r: bool)
    ensures
        r == lex_le(a@, b@),
{
    proof {
        assert(a@.skip(0) =~= a@);
        assert(b@.skip(0) =~= b@);
    }
    let mut i: usize = 0;
    while i < a.len()
        invariant
            i <= a@.len(),
            i <= b@.len(),
            lex_le(a@, b@) == lex_le(a@.skip(i as int), b@.skip(i as int)),
        decreases a@.len() - i,
    {
        if i >= b.len() {
            proof {
                assert(b@.skip(i as int).len() == 0);
                assert(a@.skip(i as int).len() > 0);
            }
            return false;
        }
        let x = a[i];
        let y = b[i];
        proof {
            assert(a@.skip(i as int)[0] == a@[i as int]);
            assert(b@.skip(i as int)[0] == b@[i as int]);
        }
        if x < y {
            return true;
        }
        if x > y {
            return false;
        }
        proof {
            lemma_lex_skip(a@, b@, i as int);
        }
        i = i + 1;
    }
    proof {
        assert(a@.skip(i as int).len() == 0);
    }
    true
}

/// Inserting between smaller and larger entries keeps the order.
proof fn lemma_insert_sorted(s: Seq<FileEntry>, e: FileEntry, pos: int)
    requires
        sorted_by_name(s),
        0 <= pos <= s.len(),
        forall|k: int| 0 <= k < pos ==> lex_le(#[trigger] s[k].name@, e.name@),
        forall|k: int| pos <= k < s.len() ==> lex_le(e.name@, #[trigger] s[k].name@),
    ensures
        sorted_by_name(s.insert(pos, e)),
{
    let t = s.insert(pos, e);
    s.insert_ensures(pos, e);
    assert forall|i: int, j: int| 0 <= i < j < t.len() implies lex_le(t[i].name@, t[j].name@) by {
        if i < pos {
            assert(t[i] == s[i]);
        } else if i > pos {
            assert(t[i] == s[i - 1]);
        }
        if j < pos {
            assert(t[j] == s[j]);
        } else if j > pos {
            assert(t[j] == s[j - 1]);
        }
    }
}

/// Inserting anywhere adds exactly one occurrence to the contents.
proof fn lemma_to_multiset_insert(s: Seq<FileEntry>, pos: int, e: FileEntry)
    requires
        0 <= pos <= s.len(),
    ensures
        s.insert(pos, e).to_multiset() =~= s.to_multiset().insert(e),
{
    let t = s.insert(pos, e);
    s.insert_ensures(pos, e);
    assert(t.remove(pos) =~= s);
    assert(t[pos] == e);
    assert(t.remove(pos).to_multiset() =~= t.to_multiset().remove(e));
    assert(t.contains(e));
    assert(t.to_multiset().count(e) > 0);
    assert forall|x: FileEntry| t.to_multiset().count(x) == s.to_multiset().insert(e).count(
        x,
    ) by {
        if x == e {
            assert(s.to_multiset().count(e) == t.to_multiset().count(e) - 1);
        } else {
            assert(s.to_multiset().count(x) == t.to_multiset().count(x));
        }
    }
}

/// Index of the first entry whose name orders strictly after `e`, within
/// a run of entries already sorted by name.
fn insert_position(sorted: &Vec<FileEntry>, e: &FileEntry) -> (pos: usize)
    requires
        sorted_by_name(sorted@),
    ensures
        pos <= sorted@.len(),
        forall|k: int| 0 <= k < pos ==> lex_le(#[trigger] sorted@[k].name@, e.name@),
        forall|k: int| pos <= k < sorted@.len() ==> lex_le(e.name@, #[trigger] sorted@[k].name@),
        pos < sorted@.len() ==> !lex_le(sorted@[pos as int].name@, e.name@),
{
    let mut pos: usize = 0;
    loop
        invariant
            pos <= sorted@.len(),
            sorted_by_name(sorted@),
            forall|k: int| 0 <= k < pos ==> lex_le(#[trigger] sorted@[k].name@, e.name@),
        ensures
            pos <= sorted@.len(),
            forall|k: int| 0 <= k < pos ==> lex_le(#[trigger] sorted@[k].name@, e.name@),
            pos < sorted@.len() ==> !lex_le(sorted@[pos as int].name@, e.name@),
        decreases sorted@.len() - pos,
    {
        if pos >= sorted.len() {
            break ;
        }
        if !lex_le_bytes(&sorted[pos].name, &e.name) {
            break ;
        }
        pos = pos + 1;
    }
    proof {
        if pos < sorted@.len() {
            lemma_lex_total(sorted@[pos as int].name@, e.name@);
            assert forall|k: int| pos <= k < sorted@.len() implies lex_le(
                e.name@,
                #[trigger] sorted@[k].name@,
            ) by {
                if k > pos {
                    lemma_lex_trans(e.name@, sorted@[pos as int].name@, sorted@[k].name@);
                }
            }
        }
    }
    pos
}

/// Arranges the listed entries in ascending name order. The result holds
/// exactly the entries given, and the sort is stable: entries of equal
/// name keep their handle order.
pub fn sort_entries(entries: Vec<FileEntry>) -> (r: Vec<FileEntry>)
    ensures
        sorted_by_name(r@),
        r@.to_multiset() == entries@.to_multiset(),
        stable_by_handle(entries@) ==> stable_by_handle(r@),
{
    let ghost orig = entries@;
    let mut rest = entries;
    let mut result: Vec<FileEntry> = Vec::new();
    proof {
        assert(result@.to_multiset().add(rest@.to_multiset()) =~= orig.to_multiset());
        assert(rest@ =~= orig.skip(0));
    }
    while rest.len() > 0
        invariant
            sorted_by_name(result@),
            result@.to_multiset().add(rest@.to_multiset()) =~= orig.to_multiset(),
            rest@ =~= orig.skip(result@.len() as int),
            result@.len() + rest@.len() == orig.len(),
            stable_by_handle(orig) ==> stable_by_handle(result@),
        decreases rest@.len(),
    {
        let ghost rest0 = rest@;
        let ghost k = result@.len() as int;
        let ghost ee = rest0[0];
        proof {
            assert(rest0[0] == rest0.first());
            assert(rest0.contains(rest0[0]));
            assert(ee == orig[k]);
            if stable_by_handle(orig) {
                assert(orig.no_duplicates()) by {
                    assert forall|a: int, b: int| 0 <= a < b < orig.len() implies orig[a]
                        != orig[b] by {
                        if orig[a].name@ == orig[b].name@ {
                            assert(orig[a].handle < orig[b].handle);
                        }
                    }
                }
                orig.lemma_multiset_has_no_duplicates();
                assert forall|ii: int|
                    0 <= ii < result@.len() && result@[ii].name@ == ee.name@ implies result@[ii].handle
                    < ee.handle by {
                    let x = result@[ii];
                    assert(result@.contains(x));
                    assert(result@.to_multiset().count(x) > 0);
                    assert(rest0.to_multiset().count(ee) > 0);
                    assert(orig.to_multiset().count(x) == result@.to_multiset().count(x)
                        + rest0.to_multiset().count(x));
                    assert(orig.to_multiset().contains(x));
                    assert(orig.to_multiset().count(x) == 1);
                    assert(rest0.to_multiset().count(x) == 0);
                    assert(x != ee);
                    assert(orig.contains(x));
                    let idx = choose|idx: int| 0 <= idx < orig.len() && orig[idx] == x;
                    if idx > k {
                        assert(rest0[idx - k] == orig[idx]);
                        assert(rest0.contains(x));
                        assert(false);
                    }
                    assert(idx < k);
                    assert(orig[idx].name@ == orig[k].name@);
                }
            }
        }
        let e = rest.remove(0);
        proof {
            assert(e == ee);
            assert(rest@ =~= rest0.remove(0));
            assert(rest@ =~= orig.skip(k + 1));
            assert(rest@.to_multiset() =~= rest0.to_multiset().remove(e));
        }
        let pos = insert_position(&result, &e);
        let ghost res0 = result@;
        proof {
            lemma_insert_sorted(res0, e, pos as int);
            lemma_to_multiset_insert(res0, pos as int, e);
            if stable_by_handle(orig) {
                assert forall|jj: int| pos <= jj < res0.len() implies res0[jj].name@
                    != e.name@ by {
                    if res0[jj].name@ == e.name@ {
                        lemma_lex_total(res0[pos as int].name@, res0[pos as int].name@);
                        if jj > pos {
                            assert(lex_le(res0[pos as int].name@, res0[jj].name@));
                        }
                        assert(lex_le(res0[pos as int].name@, e.name@));
                        assert(false);
                    }
                }
                let t = res0.insert(pos as int, e);
                res0.insert_ensures(pos as int, e);
                assert forall|i: int, j: int|
                    0 <= i < j < t.len() && t[i].name@ == t[j].name@ implies t[i].handle
                    < t[j].handle by {
                    if i < pos {
                        assert(t[i] == res0[i]);
                    } else if i > pos {
                        assert(t[i] == res0[i - 1]);
                    }
                    if j < pos {
                        assert(t[j] == res0[j]);
                    } else if j > pos {
                        assert(t[j] == res0[j - 1]);
                    }
                    if i == pos {
                        assert(res0[j - 1].name@ != e.name@);
                        assert(false);
                    } else if j == pos {
                        assert(res0[i].name@ == ee.name@);
                    }
                }
                assert(stable_by_handle(t));
            }
        }
        result.insert(pos, e);
        proof {
            assert(result@ =~= res0.insert(pos as int, e));
            assert(result@.to_multiset().add(rest@.to_multiset()) =~= orig.to_multiset());
        }
    }
    proof {
        assert(rest@.to_multiset().len() == 0);
        assert forall|x: FileEntry| result@.to_multiset().count(x) == orig.to_multiset().count(
            x,
        ) by {
            assert(rest@.to_multiset().count(x) <= rest@.to_multiset().len());
        }
        assert(result@.to_multiset() =~= orig.to_multiset());
    }
    result
}

/// The sorted arrangement of a directory's entries is a function of the
/// entries alone: two name-sorted sequences holding the same entries,
/// no two of which share a name, are the same sequence, whatever order
/// the directory listed them in.
pub proof fn lemma_sorted_order_unique(s: Seq<FileEntry>, t: Seq<FileEntry>)
    requires
        sorted_by_name(s),
        sorted_by_name(t),
        distinct_names(s),
        s.to_multiset() == t.to_multiset(),
    ensures
        s =~= t,
    decreases s.len(),
{
    assert(s.len() == s.to_multiset().len());
    assert(t.len() == t.to_multiset().len());
    if s.len() == 0 {
        assert(s =~= t);
    } else {
        assert(s.contains(s[0]));
        assert(t.to_multiset().count(s[0]) > 0);
        assert(t.contains(s[0]));
        let j = choose|j: int| 0 <= j < t.len() && t[j] == s[0];
        assert(lex_le(t[0].name@, s[0].name@)) by {
            if j > 0 {
                assert(lex_le(t[0].name@, t[j].name@));
            } else {
                lemma_lex_total(t[0].name@, t[0].name@);
            }
        }
        assert(t.contains(t[0]));
        assert(s.to_multiset().count(t[0]) > 0);
        assert(s.contains(t[0]));
        let i = choose|i: int| 0 <= i < s.len() && s[i] == t[0];
        assert(lex_le(s[0].name@, t[0].name@)) by {
            if i > 0 {
                assert(lex_le(s[0].name@, s[i].name@));
            } else {
                lemma_lex_total(s[0].name@, s[0].name@);
            }
        }
        lemma_lex_antisym(s[0].name@, t[0].name@);
        assert(s[0].name@ == t[0].name@);
        assert(s[0] == t[0]) by {
            if i > 0 {
                assert(s[0].name@ != s[i].name@);
            }
        }
        let s1 = s.drop_first();
        let t1 = t.drop_first();
        assert(s1 =~= s.remove(0));
        assert(t1 =~= t.remove(0));
        assert(s1.to_multiset() =~= s.to_multiset().remove(s[0]));
        assert(t1.to_multiset() =~= t.to_multiset().remove(t[0]));
        assert(s1.to_multiset() == t1.to_multiset());
        assert(sorted_by_name(s1)) by {
            assert forall|a: int, b: int| 0 <= a < b < s1.len() implies lex_le(
                s1[a].name@,
                s1[b].name@,
            ) by {
                assert(s1[a] == s[a + 1]);
                assert(s1[b] == s[b + 1]);
            }
        }
        assert(sorted_by_name(t1)) by {
            assert forall|a: int, b: int| 0 <= a < b < t1.len() implies lex_le(
                t1[a].name@,
                t1[b].name@,
            ) by {
                assert(t1[a] == t[a + 1]);
                assert(t1[b] == t[b + 1]);
            }
        }
        assert(distinct_names(s1)) by {
            assert forall|a: int, b: int| 0 <= a < b < s1.len() implies s1[a].name@
                != s1[b].name@ by {
                assert(s1[a] == s[a + 1]);
                assert(s1[b] == s[b + 1]);
            }
        }
        lemma_sorted_order_unique(s1, t1);
        assert forall|k: int| 0 <= k < s.len() implies s[k] == t[k] by {
            if k > 0 {
                assert(s[k] == s1[k - 1]);
                assert(t[k] == t1[k - 1]);
            }
        }
    }
}

} // verus!
