//! The process picker's list: one row per visible top-level window that has
//! a title and a known process image, ordered by image name, with repeated
//! (image, title) rows folded.
use vstd::prelude::*;
use crate::text::{
    lex_less, lemma_lex_less_asymmetric, lemma_lex_less_total,
    lemma_lex_less_transitive, str_eq, str_less,
};

verus! {

/// A window of another process, for the picker.
#[derive(Debug, Clone)]
pub struct ProcEntry {
    pub pid: u32,
    pub exe: String,
    pub title: String,
    pub class: String,
}

/// A window is listed when it has a title and its process image is known.
pub open spec fn listable(e: ProcEntry) -> bool {
    e.title@.len() > 0 && e.exe@.len() > 0
}

/// The listable entries, in their order.
pub open spec fn listable_only(s: Seq<ProcEntry>) -> Seq<ProcEntry>
    decreases s.len(),
{
    if s.len() == 0 {
        s
    } else if listable(s.last()) {
        listable_only(s.drop_last()).push(s.last())
    } else {
        listable_only(s.drop_last())
    }
}

/// Position from `i` on of the first entry whose image name sorts after `e`'s.
pub open spec fn first_after(t: Seq<ProcEntry>, e: ProcEntry, i: int) -> int
    decreases t.len() - i,
{
    if i < 0 || i >= t.len() {
        t.len() as int
    } else if lex_less(e.exe@, t[i].exe@) {
        i
    } else {
        first_after(t, e, i + 1)
    }
}

/// Stable sort by image name (each entry goes after all entries whose name
/// does not sort after its own; `slice::sort_by` with `str::cmp`).
pub open spec fn sorted_by_exe(s: Seq<ProcEntry>) -> Seq<ProcEntry>
    decreases s.len(),
{
    if s.len() == 0 {
        s
    } else {
        let t = sorted_by_exe(s.drop_last());
        t.insert(first_after(t, s.last(), 0), s.last())
    }
}

/// Same image name and same title.
pub open spec fn same_row(a: ProcEntry, b: ProcEntry) -> bool {
    a.exe@ == b.exe@ && a.title@ == b.title@
}

/// Consecutive rows with the same image and title kept once
/// (`Vec::dedup_by`).
pub open spec fn dedup_rows(s: Seq<ProcEntry>) -> Seq<ProcEntry>
    decreases s.len(),
{
    if s.len() == 0 {
        s
    } else {
        let d = dedup_rows(s.drop_last());
        if d.len() > 0 && same_row(d.last(), s.last()) {
            d
        } else {
            d.push(s.last())
        }
    }
}

/// The picker list made from what the window enumeration gathered.
pub open spec fn picker_list(raw: Seq<ProcEntry>) -> Seq<ProcEntry> {
    dedup_rows(sorted_by_exe(listable_only(raw)))
}

/// Ordered by image name: no row's name sorts before an earlier row's.
pub open spec fn ordered_by_exe(s: Seq<ProcEntry>) -> bool {
    forall|i: int, j: int| 0 <= i < j < s.len() ==> !lex_less(#[trigger] s[j].exe@, #[trigger] s[i].exe@)
}

proof fn lemma_first_after(t: Seq<ProcEntry>, e: ProcEntry, i: int)
    requires
        0 <= i <= t.len(),
    ensures
        i <= first_after(t, e, i) <= t.len(),
        forall|j: int| i <= j < first_after(t, e, i) ==> !lex_less(e.exe@, #[trigger] t[j].exe@),
        first_after(t, e, i) < t.len() ==> lex_less(e.exe@, t[first_after(t, e, i)].exe@),
    decreases t.len() - i,
{
    if i < t.len() && !lex_less(e.exe@, t[i].exe@) {
        lemma_first_after(t, e, i + 1);
    }
}

/// Not sorting after is transitive (the non-strict order).
proof fn lemma_not_less_transitive(a: Seq<char>, b: Seq<char>, c: Seq<char>)
    requires
        !lex_less(b, a),
        !lex_less(c, b),
    ensures
        !lex_less(c, a),
{
    if lex_less(c, a) {
        if lex_less(a, b) {
            lemma_lex_less_transitive(c, a, b, 0);
            lemma_lex_less_asymmetric(c, b, 0);
        } else {
            lemma_lex_less_total(a, b, 0);
            assert(a =~= b);
        }
    }
}

proof fn lemma_sorted_by_exe(s: Seq<ProcEntry>)
    ensures
        ordered_by_exe(sorted_by_exe(s)),
        sorted_by_exe(s).len() == s.len(),
    decreases s.len(),
{
    if s.len() > 0 {
        let t = sorted_by_exe(s.drop_last());
        let e = s.last();
        lemma_sorted_by_exe(s.drop_last());
        lemma_first_after(t, e, 0);
        let p = first_after(t, e, 0);
        let r = t.insert(p, e);
        assert forall|i: int, j: int| 0 <= i < j < r.len() implies !lex_less(
            #[trigger] r[j].exe@,
            #[trigger] r[i].exe@,
        ) by {
            if j < p {
                assert(r[i] == t[i] && r[j] == t[j]);
            } else if j == p {
                assert(r[i] == t[i]);
                assert(!lex_less(e.exe@, t[i].exe@));
            } else if i == p {
                assert(r[j] == t[j - 1]);
                if j - 1 == p {
                    assert(lex_less(e.exe@, t[p].exe@));
                    lemma_lex_less_asymmetric(e.exe@, t[p].exe@, 0);
                } else {
                    assert(lex_less(e.exe@, t[p].exe@));
                    assert(!lex_less(t[j - 1].exe@, t[p].exe@));
                    lemma_lex_less_asymmetric(e.exe@, t[p].exe@, 0);
                    lemma_not_less_transitive(e.exe@, t[p].exe@, t[j - 1].exe@);
                }
            } else if i < p {
                assert(r[i] == t[i] && r[j] == t[j - 1]);
            } else {
                assert(r[i] == t[i - 1] && r[j] == t[j - 1]);
            }
        }
    }
}

proof fn lemma_dedup_rows(s: Seq<ProcEntry>)
    requires
        ordered_by_exe(s),
    ensures
        ordered_by_exe(dedup_rows(s)),
        forall|i: int|
            0 <= i < dedup_rows(s).len() - 1 ==> !same_row(
                #[trigger] dedup_rows(s)[i],
                dedup_rows(s)[i + 1],
            ),
        forall|i: int|
            0 <= i < dedup_rows(s).len() ==> exists|j: int|
                0 <= j < s.len() && #[trigger] dedup_rows(s)[i] == s[j],
    decreases s.len(),
{
    if s.len() > 0 {
        let s0 = s.drop_last();
        assert(ordered_by_exe(s0)) by {
            assert forall|i: int, j: int| 0 <= i < j < s0.len() implies !lex_less(
                #[trigger] s0[j].exe@,
                #[trigger] s0[i].exe@,
            ) by {
                assert(s0[i] == s[i] && s0[j] == s[j]);
            }
        }
        lemma_dedup_rows(s0);
        let d = dedup_rows(s0);
        assert forall|i: int| 0 <= i < d.len() implies exists|j: int|
            0 <= j < s.len() && #[trigger] d[i] == s[j] by {
            let j = choose|j: int| 0 <= j < s0.len() && #[trigger] d[i] == s0[j];
            assert(s[j] == s0[j]);
        }
        if !(d.len() > 0 && same_row(d.last(), s.last())) {
            let r = d.push(s.last());
            assert forall|i: int, j: int| 0 <= i < j < r.len() implies !lex_less(
                #[trigger] r[j].exe@,
                #[trigger] r[i].exe@,
            ) by {
                if j < d.len() {
                    assert(r[i] == d[i] && r[j] == d[j]);
                } else {
                    assert(r[i] == d[i]);
                    let k = choose|k: int| 0 <= k < s0.len() && #[trigger] d[i] == s0[k];
                    assert(s0[k] == s[k]);
                    assert(!lex_less(s.last().exe@, s[k].exe@));
                }
            }
            assert forall|i: int| 0 <= i < r.len() - 1 implies !same_row(#[trigger] r[i], r[i + 1]) by {
                if i < d.len() - 1 {
                    assert(r[i] == d[i] && r[i + 1] == d[i + 1]);
                }
            }
            assert forall|i: int| 0 <= i < r.len() implies exists|j: int|
                0 <= j < s.len() && #[trigger] r[i] == s[j] by {
                if i < d.len() {
                    assert(r[i] == d[i]);
                } else {
                    assert(r[i] == s[s.len() - 1]);
                }
            }
        }
    }
}

proof fn lemma_listable_only(s: Seq<ProcEntry>)
    ensures
        forall|x: ProcEntry| #[trigger] listable_only(s).contains(x) <==> s.contains(x) && listable(x),
    decreases s.len(),
{
    broadcast use vstd::seq_lib::lemma_seq_contains_after_push;
    if s.len() > 0 {
        let s0 = s.drop_last();
        let e = s.last();
        lemma_listable_only(s0);
        assert(s =~= s0.push(e));
        let l0 = listable_only(s0);
        assert forall|x: ProcEntry| #[trigger] listable_only(s).contains(x) <==> s.contains(x) && listable(x) by {
            assert(s.contains(x) <==> s0.contains(x) || x == e);
            if listable(e) {
                assert(listable_only(s) == l0.push(e));
                assert(l0.push(e).contains(x) <==> l0.contains(x) || x == e);
            } else {
                assert(listable_only(s) == l0);
            }
        }
    }
}

proof fn lemma_sorted_same_entries(s: Seq<ProcEntry>)
    ensures
        forall|x: ProcEntry| #[trigger] sorted_by_exe(s).contains(x) <==> s.contains(x),
    decreases s.len(),
{
    broadcast use vstd::seq_lib::lemma_seq_contains_after_push;
    if s.len() > 0 {
        let s0 = s.drop_last();
        lemma_sorted_same_entries(s0);
        lemma_sorted_by_exe(s0);
        let t = sorted_by_exe(s0);
        let e = s.last();
        lemma_first_after(t, e, 0);
        let p = first_after(t, e, 0);
        let r = t.insert(p, e);
        assert(s =~= s0.push(e));
        assert forall|x: ProcEntry| #[trigger] r.contains(x) <==> t.contains(x) || x == e by {
            if t.contains(x) {
                let i = choose|i: int| 0 <= i < t.len() && t[i] == x;
                if i < p {
                    assert(r[i] == x);
                } else {
                    assert(r[i + 1] == x);
                }
            }
            if x == e {
                assert(r[p] == x);
            }
            if r.contains(x) {
                let j = choose|j: int| 0 <= j < r.len() && r[j] == x;
                if j < p {
                    assert(t[j] == x);
                } else if j > p {
                    assert(t[j - 1] == x);
                }
            }
        }
    }
}

/// Some row of `d` has this image name and title.
pub open spec fn has_row(d: Seq<ProcEntry>, exe: Seq<char>, title: Seq<char>) -> bool {
    exists|j: int| 0 <= j < d.len() && #[trigger] d[j].exe@ == exe && d[j].title@ == title
}

proof fn lemma_dedup_covers(s: Seq<ProcEntry>)
    ensures
        forall|x: ProcEntry| #[trigger] s.contains(x) ==> has_row(dedup_rows(s), x.exe@, x.title@),
        forall|x: ProcEntry| #[trigger] dedup_rows(s).contains(x) ==> s.contains(x),
    decreases s.len(),
{
    broadcast use vstd::seq_lib::lemma_seq_contains_after_push;
    if s.len() > 0 {
        let s0 = s.drop_last();
        let e = s.last();
        lemma_dedup_covers(s0);
        assert(s =~= s0.push(e));
        let d = dedup_rows(s0);
        let r = dedup_rows(s);
        assert forall|x: ProcEntry| #[trigger] s.contains(x) implies has_row(r, x.exe@, x.title@) by {
            if x == e {
                if d.len() > 0 && same_row(d.last(), e) {
                    assert(r[d.len() - 1].exe@ == x.exe@);
                } else {
                    assert(r[d.len() as int].exe@ == x.exe@);
                }
            } else {
                assert(s0.contains(x));
                assert(has_row(d, x.exe@, x.title@));
                let j = choose|j: int| 0 <= j < d.len() && #[trigger] d[j].exe@ == x.exe@ && d[j].title@ == x.title@;
                assert(r[j] == d[j]);
                assert(r[j].exe@ == x.exe@);
            }
        }
    }
}

/// Folding loses no (image, title) pair: every window that has a title and a
/// known process image shows up in the picker list as a row with its image
/// name and title, and every row of the list is one of those windows.
pub proof fn law_picker_keeps_every_row(raw: Seq<ProcEntry>)
    ensures
        forall|x: ProcEntry|
            #[trigger] raw.contains(x) && x.title@.len() > 0 && x.exe@.len() > 0 ==> has_row(
                picker_list(raw),
                x.exe@,
                x.title@,
            ),
        forall|x: ProcEntry|
            #[trigger] picker_list(raw).contains(x) ==> raw.contains(x) && x.title@.len() > 0
                && x.exe@.len() > 0,
{
    let l = listable_only(raw);
    let t = sorted_by_exe(l);
    lemma_listable_only(raw);
    lemma_sorted_same_entries(l);
    lemma_dedup_covers(t);
    assert forall|x: ProcEntry|
        #[trigger] raw.contains(x) && x.title@.len() > 0 && x.exe@.len() > 0 implies has_row(
            picker_list(raw),
            x.exe@,
            x.title@,
        ) by {
        assert(l.contains(x));
        assert(t.contains(x));
    }
    assert forall|x: ProcEntry| #[trigger] picker_list(raw).contains(x) implies raw.contains(x)
        && x.title@.len() > 0 && x.exe@.len() > 0 by {
        assert(t.contains(x));
        assert(l.contains(x));
    }
}

/// The picker list is ordered by image name and never shows the same
/// (image, title) row twice in a row.
pub proof fn law_picker_list(raw: Seq<ProcEntry>)
    ensures
        ordered_by_exe(picker_list(raw)),
        forall|i: int|
            0 <= i < picker_list(raw).len() - 1 ==> !same_row(
                #[trigger] picker_list(raw)[i],
                picker_list(raw)[i + 1],
            ),
{
    lemma_sorted_by_exe(listable_only(raw));
    lemma_dedup_rows(sorted_by_exe(listable_only(raw)));
}

/// Builds the picker list from the windows gathered: drops those without a
/// title or process image, sorts by image name (stable), folds repeated
/// consecutive (image, title) rows.
pub fn picker_rows(raw: Vec<ProcEntry>) -> (out: Vec<ProcEntry>)
    ensures
        out@ == picker_list(raw@),
{
    let ghost orig = raw@;
    let mut raw = raw;
    // keep the listable entries
    let mut kept: Vec<ProcEntry> = Vec::new();
    let ghost mut k: int = 0;
    while raw.len() > 0
        invariant
            0 <= k <= orig.len(),
            raw@ == orig.skip(k),
            kept@ == listable_only(orig.take(k)),
        decreases raw@.len(),
    {
        let e = raw.remove(0);
        proof {
            assert(orig.take(k + 1).drop_last() =~= orig.take(k));
            assert(orig.take(k + 1).last() == e);
            k = k + 1;
            assert(raw@ =~= orig.skip(k));
        }
        if !e.title.as_str().is_empty() && !e.exe.as_str().is_empty() {
            kept.push(e);
        }
    }
    proof {
        assert(orig.take(k) =~= orig);
    }
    // stable insertion sort by image name
    let ghost listed = kept@;
    let mut sorted: Vec<ProcEntry> = Vec::new();
    let ghost mut m: int = 0;
    assert(sorted@ =~= sorted_by_exe(listed.take(0)));
    while kept.len() > 0
        invariant
            0 <= m <= listed.len(),
            kept@ == listed.skip(m),
            sorted@ == sorted_by_exe(listed.take(m)),
        decreases kept@.len(),
    {
        let e = kept.remove(0);
        let mut p: usize = 0;
        while p < sorted.len() && !str_less(e.exe.as_str(), sorted[p].exe.as_str())
            invariant
                p <= sorted@.len(),
                first_after(sorted@, e, 0) == first_after(sorted@, e, p as int),
            decreases sorted@.len() - p,
        {
            p = p + 1;
        }
        proof {
            assert(listed.take(m + 1).drop_last() =~= listed.take(m));
            assert(listed.take(m + 1).last() == e);
            m = m + 1;
            assert(kept@ =~= listed.skip(m));
        }
        sorted.insert(p, e);
    }
    proof {
        assert(listed.take(m) =~= listed);
    }
    // fold repeated consecutive rows
    let ghost ordered = sorted@;
    let mut out: Vec<ProcEntry> = Vec::new();
    let ghost mut n: int = 0;
    assert(out@ =~= dedup_rows(ordered.take(0)));
    while sorted.len() > 0
        invariant
            0 <= n <= ordered.len(),
            sorted@ == ordered.skip(n),
            out@ == dedup_rows(ordered.take(n)),
        decreases sorted@.len(),
    {
        let e = sorted.remove(0);
        proof {
            assert(ordered.take(n + 1).drop_last() =~= ordered.take(n));
            assert(ordered.take(n + 1).last() == e);
            n = n + 1;
            assert(sorted@ =~= ordered.skip(n));
        }
        let len = out.len();
        let repeated = len > 0 && str_eq(out[len - 1].exe.as_str(), e.exe.as_str()) && str_eq(
            out[len - 1].title.as_str(),
            e.title.as_str(),
        );
        if !repeated {
            out.push(e);
        }
    }
    proof {
        assert(ordered.take(n) =~= ordered);
    }
    out
}

} // verus!
