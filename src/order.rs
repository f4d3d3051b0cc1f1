//! Lexicographic order on identifiers, and sorting nodes by it.
use crate::node::{ids_of, unique_ids, Node};
use vstd::prelude::*;
use vstd::string::StrSliceExecFns;

verus! {

/// `a` and `b` agree on their first `i` characters, and at `i` either `a`
/// has a smaller character or `a` ends while `b` goes on.
pub open spec fn lex_split(a: Seq<char>, b: Seq<char>, i: int) -> bool {
    &&& 0 <= i <= a.len()
    &&& i <= b.len()
    &&& forall|k: int| 0 <= k < i ==> a[k] == b[k]
    &&& (i < a.len() && i < b.len() && a[i] < b[i]) || (i == a.len() && i < b.len())
}

/// `a` comes strictly before `b` in the lexicographic order of characters.
pub open spec fn lex_lt(a: Seq<char>, b: Seq<char>) -> bool {
    exists|i: int| #[trigger] lex_split(a, b, i)
}

/// The lexicographic order is a strict order: never both ways, and transitive.
pub proof fn lemma_lex_order(a: Seq<char>, b: Seq<char>, c: Seq<char>)
    ensures
        !(lex_lt(a, b) && lex_lt(b, a)),
        lex_lt(a, b) && lex_lt(b, c) ==> lex_lt(a, c),
        !lex_lt(a, a),
{
    if lex_lt(a, b) && lex_lt(b, a) {
        let i = choose|i: int| #[trigger] lex_split(a, b, i);
        let j = choose|j: int| #[trigger] lex_split(b, a, j);
        if i < j {
            assert(b[i] == a[i]);
        } else if j < i {
            assert(a[j] == b[j]);
        }
    }
    if lex_lt(a, b) && lex_lt(b, c) {
        let i = choose|i: int| #[trigger] lex_split(a, b, i);
        let j = choose|j: int| #[trigger] lex_split(b, c, j);
        if i < j {
            assert(lex_split(a, c, i));
        } else if j < i {
            assert(lex_split(a, c, j));
        } else {
            assert(lex_split(a, c, i));
        }
    }
    if lex_lt(a, a) {
        let i = choose|i: int| #[trigger] lex_split(a, a, i);
    }
}

/// Two different identifiers are ordered one way or the other.
pub proof fn lemma_lex_total(a: Seq<char>, b: Seq<char>)
    requires
        a != b,
    ensures
        lex_lt(a, b) || lex_lt(b, a),
{
    let n = if a.len() < b.len() { a.len() } else { b.len() };
    if forall|k: int| 0 <= k < n ==> a[k] == b[k] {
        if a.len() < b.len() {
            assert(lex_split(a, b, a.len() as int));
        } else if b.len() < a.len() {
            assert(lex_split(b, a, b.len() as int));
        } else {
            assert(a =~= b);
        }
    } else {
        let k = choose|k: int| 0 <= k < n && a[k] != b[k];
        lemma_first_difference(a, b, k);
    }
}

/// If `a` and `b` differ somewhere before both end, the first difference
/// orders them.
proof fn lemma_first_difference(a: Seq<char>, b: Seq<char>, k: int)
    requires
        0 <= k < a.len(),
        k < b.len(),
        a[k] != b[k],
    ensures
        lex_lt(a, b) || lex_lt(b, a),
    decreases k,
{
    if exists|m: int| 0 <= m < k && a[m] != b[m] {
        let m = choose|m: int| 0 <= m < k && a[m] != b[m];
        lemma_first_difference(a, b, m);
    } else {
        if a[k] < b[k] {
            assert(lex_split(a, b, k));
        } else {
            assert(lex_split(b, a, k));
        }
    }
}

/// `a` comes strictly before `b` in the lexicographic order of characters.
pub fn id_lt(a: &str, b: &str) -> (r: bool)
    ensures
        r == lex_lt(a@, b@),
{
    let na = a.unicode_len();
    let nb = b.unicode_len();
    let mut i: usize = 0;
    while i < na && i < nb
        invariant
            na == a@.len(),
            nb == b@.len(),
            0 <= i <= na,
            i <= nb,
            forall|k: int| 0 <= k < i ==> a@[k] == b@[k],
        decreases na - i,
    {
        let ca = a.get_char(i);
        let cb = b.get_char(i);
        if ca != cb {
            if ca < cb {
                assert(lex_split(a@, b@, i as int));
                return true;
            } else {
                proof {
                    assert(lex_split(b@, a@, i as int));
                    lemma_lex_order(a@, b@, a@);
                }
                return false;
            }
        }
        i += 1;
    }
    if i == na && i < nb {
        assert(lex_split(a@, b@, i as int));
        true
    } else {
        proof {
            if lex_lt(a@, b@) {
                let j = choose|j: int| #[trigger] lex_split(a@, b@, j);
                if j < i {
                    assert(a@[j] == b@[j]);
                }
            }
        }
        false
    }
}

/// The identifiers of `s` increase strictly.
pub open spec fn sorted_by_id(s: Seq<Node>) -> bool {
    forall|i: int, j: int| 0 <= i < j < s.len() ==> lex_lt(#[trigger] s[i].id@, #[trigger] s[j].id@)
}

/// The nodes of `v`, sorted by identifier.
pub fn sort_by_id(v: Vec<Node>) -> (r: Vec<Node>)
    requires
        unique_ids(v@),
    ensures
        unique_ids(r@),
        ids_of(r@) == ids_of(v@),
        sorted_by_id(r@),
        r@.len() == v@.len(),
{
    let mut r: Vec<Node> = Vec::new();
    let mut i: usize = 0;
    while i < v.len()
        invariant
            0 <= i <= v@.len(),
            unique_ids(v@),
            unique_ids(r@),
            sorted_by_id(r@),
            ids_of(r@) == ids_of(v@.take(i as int)),
            r@.len() == i,
        decreases v@.len() - i,
    {
        let x = &v[i];
        let ghost t0 = v@.take(i as int);
        let ghost t1 = v@.take(i + 1);
        proof {
            assert forall|y: Seq<char>| ids_of(t1).contains(y) <==> ids_of(t0).insert(x.id@).contains(y) by {
                if ids_of(t1).contains(y) {
                    let k = choose|k: int| 0 <= k < t1.len() && t1[k].id@ == y;
                    if k < i {
                        assert(t0[k] == t1[k]);
                    }
                }
                if ids_of(t0).contains(y) {
                    let k = choose|k: int| 0 <= k < t0.len() && t0[k].id@ == y;
                    assert(t0[k] == t1[k]);
                }
                assert(t1[i as int] == *x);
            }
            assert(ids_of(t1) =~= ids_of(t0).insert(x.id@));
            assert forall|k: int| 0 <= k < r@.len() implies r@[k].id@ != x.id@ by {
                assert(ids_of(r@).contains(r@[k].id@));
                let m = choose|m: int| 0 <= m < t0.len() && t0[m].id@ == r@[k].id@;
                assert(t0[m] == v@[m]);
            }
        }
        let mut p: usize = 0;
        while p < r.len() && !id_lt(x.id.as_str(), r[p].id.as_str())
            invariant
                0 <= p <= r@.len(),
                forall|k: int| 0 <= k < p ==> !lex_lt(x.id@, #[trigger] r@[k].id@),
            decreases r@.len() - p,
        {
            p += 1;
        }
        let ghost old_r = r@;
        r.insert(p, Node::from_nodish_ref(x));
        proof {
            assert(r@ == old_r.insert(p as int, r@[p as int]));
            assert(r@[p as int].id@ == x.id@);
            assert forall|a: int, b: int| 0 <= a < b < r@.len() implies lex_lt(#[trigger] r@[a].id@, #[trigger] r@[b].id@) by {
                if b < p {
                    assert(r@[a] == old_r[a] && r@[b] == old_r[b]);
                } else if a > p {
                    assert(r@[a] == old_r[a - 1] && r@[b] == old_r[b - 1]);
                } else if a < p && b > p {
                    assert(r@[a] == old_r[a] && r@[b] == old_r[b - 1]);
                    assert(!lex_lt(x.id@, old_r[a].id@));
                    lemma_lex_total(x.id@, old_r[a].id@);
                    lemma_lex_order(old_r[a].id@, x.id@, old_r[b - 1].id@);
                    if b - 1 > p {
                        assert(lex_lt(old_r[p as int].id@, old_r[b - 1].id@));
                        lemma_lex_order(x.id@, old_r[p as int].id@, old_r[b - 1].id@);
                    }
                    assert(lex_lt(x.id@, old_r[p as int].id@));
                    lemma_lex_order(old_r[a].id@, x.id@, old_r[b - 1].id@);
                } else if a == p {
                    assert(r@[b] == old_r[b - 1]);
                    assert(lex_lt(x.id@, old_r[p as int].id@));
                    if b - 1 > p {
                        assert(lex_lt(old_r[p as int].id@, old_r[b - 1].id@));
                        lemma_lex_order(x.id@, old_r[p as int].id@, old_r[b - 1].id@);
                    }
                } else {
                    assert(b == p);
                    assert(r@[a] == old_r[a]);
                    assert(!lex_lt(x.id@, old_r[a].id@));
                    lemma_lex_total(x.id@, old_r[a].id@);
                }
            }
            assert forall|a: int, b: int| 0 <= a < r@.len() && 0 <= b < r@.len() && a != b implies r@[a].id@ != r@[b].id@ by {
                if a < b {
                    lemma_lex_order(r@[a].id@, r@[b].id@, r@[a].id@);
                } else {
                    lemma_lex_order(r@[b].id@, r@[a].id@, r@[b].id@);
                }
            }
            assert forall|y: Seq<char>| ids_of(r@).contains(y) <==> ids_of(old_r).insert(x.id@).contains(y) by {
                if ids_of(r@).contains(y) {
                    let k = choose|k: int| 0 <= k < r@.len() && r@[k].id@ == y;
                    if k < p {
                        assert(r@[k] == old_r[k]);
                    } else if k > p {
                        assert(r@[k] == old_r[k - 1]);
                    }
                }
                if ids_of(old_r).contains(y) {
                    let k = choose|k: int| 0 <= k < old_r.len() && old_r[k].id@ == y;
                    if k < p {
                        assert(r@[k] == old_r[k]);
                    } else {
                        assert(r@[k + 1] == old_r[k]);
                    }
                }
            }
            assert(ids_of(r@) =~= ids_of(t1));
        }
        i += 1;
    }
    assert(v@.take(v@.len() as int) == v@);
    r
}

/// The identifiers held by a sequence of strings, as a set.
pub open spec fn str_set(s: Seq<String>) -> Set<Seq<char>> {
    Set::new(|id: Seq<char>| exists|i: int| 0 <= i < s.len() && s[i]@ == id)
}

/// The strings of `s` increase strictly in lexicographic order.
pub open spec fn strictly_sorted(s: Seq<String>) -> bool {
    forall|i: int, j: int| 0 <= i < j < s.len() ==> lex_lt(#[trigger] s[i]@, #[trigger] s[j]@)
}

/// Two strictly sorted sequences of the same identifiers agree position by
/// position: a sorted listing of a set of identifiers is unique.
pub proof fn lemma_sorted_listing_unique(a: Seq<String>, b: Seq<String>)
    requires
        strictly_sorted(a),
        strictly_sorted(b),
        str_set(a) == str_set(b),
    ensures
        a.len() == b.len(),
        forall|i: int| 0 <= i < a.len() ==> (#[trigger] a[i])@ == b[i]@,
    decreases a.len() + b.len(),
{
    if a.len() == 0 {
        if b.len() > 0 {
            assert(str_set(b).contains(b[0]@));
        }
    } else if b.len() == 0 {
        assert(str_set(a).contains(a[0]@));
    } else {
        assert(str_set(a).contains(a[0]@));
        assert(str_set(b).contains(b[0]@));
        let j = choose|j: int| 0 <= j < b.len() && b[j]@ == a[0]@;
        let i = choose|i: int| 0 <= i < a.len() && a[i]@ == b[0]@;
        if j > 0 && i > 0 {
            assert(lex_lt(b[0]@, b[j]@));
            assert(lex_lt(a[0]@, a[i]@));
            lemma_lex_order(a[0]@, b[0]@, a[0]@);
        } else if j > 0 {
            assert(lex_lt(b[0]@, b[j]@));
            lemma_lex_order(b[0]@, b[0]@, b[0]@);
        } else if i > 0 {
            assert(lex_lt(a[0]@, a[i]@));
            lemma_lex_order(a[0]@, a[0]@, a[0]@);
        }
        assert(a[0]@ == b[0]@);
        let a1 = a.drop_first();
        let b1 = b.drop_first();
        assert forall|x: Seq<char>| str_set(a1).contains(x) <==> str_set(b1).contains(x) by {
            if str_set(a1).contains(x) {
                let k = choose|k: int| 0 <= k < a1.len() && a1[k]@ == x;
                assert(a[k + 1]@ == x);
                assert(lex_lt(a[0]@, a[k + 1]@));
                assert(str_set(b).contains(x));
                let m = choose|m: int| 0 <= m < b.len() && b[m]@ == x;
                if m == 0 {
                    lemma_lex_order(a[0]@, a[0]@, a[0]@);
                }
                assert(b1[m - 1]@ == x);
            }
            if str_set(b1).contains(x) {
                let k = choose|k: int| 0 <= k < b1.len() && b1[k]@ == x;
                assert(b[k + 1]@ == x);
                assert(lex_lt(b[0]@, b[k + 1]@));
                assert(str_set(a).contains(x));
                let m = choose|m: int| 0 <= m < a.len() && a[m]@ == x;
                if m == 0 {
                    lemma_lex_order(b[0]@, b[0]@, b[0]@);
                }
                assert(a1[m - 1]@ == x);
            }
        }
        assert(str_set(a1) =~= str_set(b1));
        assert forall|i2: int, j2: int| 0 <= i2 < j2 < a1.len() implies lex_lt(#[trigger] a1[i2]@, #[trigger] a1[j2]@) by {
            assert(a1[i2] == a[i2 + 1] && a1[j2] == a[j2 + 1]);
        }
        assert forall|i2: int, j2: int| 0 <= i2 < j2 < b1.len() implies lex_lt(#[trigger] b1[i2]@, #[trigger] b1[j2]@) by {
            assert(b1[i2] == b[i2 + 1] && b1[j2] == b[j2 + 1]);
        }
        lemma_sorted_listing_unique(a1, b1);
        assert forall|i2: int| 0 <= i2 < a.len() implies (#[trigger] a[i2])@ == b[i2]@ by {
            if i2 > 0 {
                assert(a1[i2 - 1]@ == b1[i2 - 1]@);
            }
        }
    }
}

} // verus!
