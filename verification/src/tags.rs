//! The order of tags and the canonical form of a tag list: ascending, with
//! every tag once.

use vstd::prelude::*;
use crate::text::chars_of;

verus! {

/// Strict lexicographic order on character sequences, characters compared by
/// their scalar values. A proper prefix precedes the sequences it begins.
pub open spec fn lex_less(a: Seq<char>, b: Seq<char>) -> bool
    decreases a.len(),
{
    if b.len() == 0 {
        false
    } else if a.len() == 0 {
        true
    } else if a[0] != b[0] {
        (a[0] as int) < (b[0] as int)
    } else {
        lex_less(a.drop_first(), b.drop_first())
    }
}

/// Whether `a` precedes `b` in the order `lex_less`.
pub fn str_less(a: &str, b: &str) -> (r: bool)
    ensures
        r == lex_less(a@, b@),
{
    let x = chars_of(a);
    let y = chars_of(b);
    let mut i: usize = 0;
    assert(x@.skip(0) =~= x@ && y@.skip(0) =~= y@);
    while i < x.len() && i < y.len() && x[i] == y[i]
        invariant
            i <= x.len(),
            i <= y.len(),
            lex_less(x@, y@) == lex_less(x@.skip(i as int), y@.skip(i as int)),
        decreases x.len() - i,
    {
        proof {
            let p = x@.skip(i as int);
            let q = y@.skip(i as int);
            assert(p.drop_first() =~= x@.skip(i + 1));
            assert(q.drop_first() =~= y@.skip(i + 1));
        }
        i += 1;
    }
    let ghost p = x@.skip(i as int);
    let ghost q = y@.skip(i as int);
    if i >= y.len() {
        assert(q.len() == 0);
        false
    } else if i >= x.len() {
        assert(p.len() == 0 && q.len() > 0);
        true
    } else {
        let cx: char = x[i];
        let cy: char = y[i];
        assert(p[0] == cx && q[0] == cy);
        assert(lex_less(p, q) == ((cx as int) < (cy as int)));
        cx < cy
    }
}

/// No sequence precedes itself.
pub proof fn lemma_lex_irreflexive(a: Seq<char>)
    ensures
        !lex_less(a, a),
    decreases a.len(),
{
    if a.len() > 0 {
        lemma_lex_irreflexive(a.drop_first());
    }
}

/// The order is transitive.
pub proof fn lemma_lex_transitive(a: Seq<char>, b: Seq<char>, c: Seq<char>)
    requires
        lex_less(a, b),
        lex_less(b, c),
    ensures
        lex_less(a, c),
    decreases a.len(),
{
    if a.len() > 0 && b.len() > 0 && c.len() > 0 {
        if a[0] == b[0] && b[0] == c[0] {
            lemma_lex_transitive(a.drop_first(), b.drop_first(), c.drop_first());
        }
    }
}

/// Any two sequences are equal or one precedes the other.
pub proof fn lemma_lex_total(a: Seq<char>, b: Seq<char>)
    ensures
        lex_less(a, b) || a == b || lex_less(b, a),
    decreases a.len(),
{
    if a.len() == 0 || b.len() == 0 {
        if a.len() == 0 && b.len() == 0 {
            assert(a =~= b);
        }
    } else if a[0] == b[0] {
        lemma_lex_total(a.drop_first(), b.drop_first());
        if a.drop_first() == b.drop_first() {
            assert(a =~= seq![a[0]] + a.drop_first());
            assert(b =~= seq![b[0]] + b.drop_first());
        }
    }
}

/// Of two sequences at most one precedes the other.
pub proof fn lemma_lex_asymmetric(a: Seq<char>, b: Seq<char>)
    requires
        lex_less(a, b),
    ensures
        !lex_less(b, a),
{
    if lex_less(b, a) {
        lemma_lex_transitive(a, b, a);
        lemma_lex_irreflexive(a);
    }
}

/// Every tag precedes all the tags after it: ascending, and none twice.
pub open spec fn strictly_ascending(tags: Seq<Seq<char>>) -> bool {
    forall|i: int, j: int| 0 <= i < j < tags.len() ==> lex_less(#[trigger] tags[i], #[trigger] tags[j])
}

/// The two lists hold the same tags, whatever their order and multiplicity.
pub open spec fn same_tags(a: Seq<Seq<char>>, b: Seq<Seq<char>>) -> bool {
    forall|t: Seq<char>| a.contains(t) <==> b.contains(t)
}

/// `canon` is the canonical form of `tags`: the tags of `tags`, ascending,
/// each once.
pub open spec fn is_canonical_of(canon: Seq<Seq<char>>, tags: Seq<Seq<char>>) -> bool {
    strictly_ascending(canon) && same_tags(canon, tags)
}

/// An ascending list is determined by the tags it holds.
pub proof fn lemma_canonical_unique(a: Seq<Seq<char>>, b: Seq<Seq<char>>)
    requires
        strictly_ascending(a),
        strictly_ascending(b),
        same_tags(a, b),
    ensures
        a == b,
    decreases a.len(),
{
    if a.len() == 0 {
        if b.len() > 0 {
            assert(b.contains(b[0]));
        }
        assert(a =~= b);
    } else {
        let top = a.last();
        assert(a.contains(top));
        assert(b.contains(top));
        let j = choose|j: int| 0 <= j < b.len() && b[j] == top;
        if j < b.len() - 1 {
            let other = b.last();
            assert(b.contains(other));
            let i = choose|i: int| 0 <= i < a.len() && a[i] == other;
            assert(lex_less(b[j], b[b.len() - 1]));
            if i < a.len() - 1 {
                assert(lex_less(a[i], a[a.len() - 1]));
                lemma_lex_asymmetric(top, other);
            } else {
                lemma_lex_irreflexive(top);
            }
        }
        let a0 = a.drop_last();
        let b0 = b.drop_last();
        assert forall|t: Seq<char>| a0.contains(t) <==> b0.contains(t) by {
            if a0.contains(t) {
                let i = choose|i: int| 0 <= i < a0.len() && a0[i] == t;
                assert(a[i] == t);
                assert(lex_less(a[i], a[a.len() - 1]));
                assert(a.contains(t));
                let k = choose|k: int| 0 <= k < b.len() && b[k] == t;
                if k == b.len() - 1 {
                    lemma_lex_irreflexive(top);
                }
                assert(b0[k] == t);
            }
            if b0.contains(t) {
                let k = choose|k: int| 0 <= k < b0.len() && b0[k] == t;
                assert(b[k] == t);
                assert(lex_less(b[k], b[b.len() - 1]));
                assert(b.contains(t));
                let i = choose|i: int| 0 <= i < a.len() && a[i] == t;
                if i == a.len() - 1 {
                    lemma_lex_irreflexive(top);
                }
                assert(a0[i] == t);
            }
        }
        assert(strictly_ascending(a0)) by {
            assert forall|i: int, j: int| 0 <= i < j < a0.len() implies lex_less(
                #[trigger] a0[i],
                #[trigger] a0[j],
            ) by {
                assert(lex_less(a[i], a[j]));
            }
        }
        assert(strictly_ascending(b0)) by {
            assert forall|i: int, j: int| 0 <= i < j < b0.len() implies lex_less(
                #[trigger] b0[i],
                #[trigger] b0[j],
            ) by {
                assert(lex_less(b[i], b[j]));
            }
        }
        lemma_canonical_unique(a0, b0);
        assert(a =~= a0.push(top));
        assert(b =~= b0.push(top));
    }
}

/// A list that is already ascending with every tag once is its own canonical
/// form: bringing a list to canonical form twice changes nothing.
pub proof fn lemma_canonical_idempotent(tags: Seq<Seq<char>>, canon: Seq<Seq<char>>)
    requires
        strictly_ascending(tags),
        is_canonical_of(canon, tags),
    ensures
        canon == tags,
{
    lemma_canonical_unique(canon, tags);
}

/// A copy of a tag list.
pub fn copy_tags(tags: &Vec<String>) -> (copy: Vec<String>)
    ensures
        copy.deep_view() == tags.deep_view(),
{
    let mut copy: Vec<String> = Vec::new();
    let mut i: usize = 0;
    while i < tags.len()
        invariant
            i <= tags.len(),
            copy.deep_view() == tags.deep_view().take(i as int),
        decreases tags.len() - i,
    {
        let ghost had = copy.deep_view();
        copy.push(tags[i].clone());
        assert(copy.deep_view() =~= had.push(tags@[i as int]@));
        assert(tags.deep_view().take(i + 1) =~= tags.deep_view().take(i as int).push(
            tags@[i as int]@,
        ));
        i += 1;
    }
    assert(tags.deep_view().take(tags.len() as int) =~= tags.deep_view());
    copy
}

/// The first position of `sorted` whose tag does not precede `tag`.
fn rank_of(sorted: &Vec<String>, tag: &str) -> (p: usize)
    ensures
        p <= sorted.len(),
        forall|i: int| 0 <= i < p ==> lex_less(#[trigger] sorted[i]@, tag@),
        p < sorted.len() ==> !lex_less(sorted[p as int]@, tag@),
{
    let mut p: usize = 0;
    while p < sorted.len() && str_less(sorted[p].as_str(), tag)
        invariant
            p <= sorted.len(),
            forall|i: int| 0 <= i < p ==> lex_less(#[trigger] sorted[i]@, tag@),
        decreases sorted.len() - p,
    {
        p += 1;
    }
    p
}

/// Brings a tag list to canonical form: sorted ascending, duplicates removed.
pub fn sort_dedup(tags: Vec<String>) -> (canon: Vec<String>)
    ensures
        is_canonical_of(canon.deep_view(), tags.deep_view()),
{
    let ghost src = tags.deep_view();
    let mut canon: Vec<String> = Vec::new();
    let n = tags.len();
    let mut i: usize = 0;
    while i < n
        invariant
            n == tags.len(),
            i <= n,
            src == tags.deep_view(),
            strictly_ascending(canon.deep_view()),
            same_tags(canon.deep_view(), src.take(i as int)),
        decreases n - i,
    {
        let tag = tags[i].clone();
        let p = rank_of(&canon, tag.as_str());
        let ghost before = canon.deep_view();
        let ghost seen = src.take(i as int);
        let ghost seen_next = src.take(i + 1);
        assert(seen_next =~= seen.push(tag@));
        let present = p < canon.len() && canon[p] == tag;
        if !present {
            canon.insert(p, tag);
            proof {
                let after = canon.deep_view();
                assert(after =~= before.insert(p as int, tag@));
                assert forall|a: int, b: int| 0 <= a < b < after.len() implies lex_less(
                    #[trigger] after[a],
                    #[trigger] after[b],
                ) by {
                    if b < p {
                        assert(lex_less(before[a], before[b]));
                    } else if b == p {
                        assert(before[a] == canon@[a]@);
                    } else if a == p {
                        lemma_lex_total(before[p as int], tag@);
                        if b - 1 > p {
                            assert(lex_less(before[p as int], before[b - 1]));
                            lemma_lex_transitive(tag@, before[p as int], before[b - 1]);
                        }
                    } else if a < p {
                        assert(lex_less(before[a], before[b - 1]));
                    } else {
                        assert(lex_less(before[a - 1], before[b - 1]));
                    }
                }
                assert forall|t: Seq<char>| after.contains(t) <==> seen_next.contains(t) by {
                    if after.contains(t) {
                        let k = choose|k: int| 0 <= k < after.len() && after[k] == t;
                        if k < p {
                            assert(before[k] == t);
                            assert(before.contains(t));
                        } else if k > p {
                            assert(before[k - 1] == t);
                            assert(before.contains(t));
                        }
                        if before.contains(t) {
                            let m = choose|m: int| 0 <= m < seen.len() && seen[m] == t;
                            assert(seen_next[m] == t);
                        } else {
                            assert(seen_next[i as int] == t);
                        }
                    }
                    if seen_next.contains(t) {
                        let m = choose|m: int| 0 <= m < seen_next.len() && seen_next[m] == t;
                        if m < i {
                            assert(seen[m] == t);
                            assert(seen.contains(t));
                            let k = choose|k: int| 0 <= k < before.len() && before[k] == t;
                            if k < p {
                                assert(after[k] == t);
                            } else {
                                assert(after[k + 1] == t);
                            }
                        } else {
                            assert(after[p as int] == t);
                        }
                    }
                }
            }
        } else {
            proof {
                assert(before[p as int] == tag@);
                assert forall|t: Seq<char>| before.contains(t) <==> seen_next.contains(t) by {
                    if before.contains(t) {
                        let m = choose|m: int| 0 <= m < seen.len() && seen[m] == t;
                        assert(seen_next[m] == t);
                    }
                    if seen_next.contains(t) {
                        let m = choose|m: int| 0 <= m < seen_next.len() && seen_next[m] == t;
                        if m < i {
                            assert(seen[m] == t);
                            assert(seen.contains(t));
                        } else {
                            assert(before.contains(t));
                        }
                    }
                }
            }
        }
        i += 1;
    }
    assert(src.take(n as int) =~= src);
    canon
}

} // verus!
