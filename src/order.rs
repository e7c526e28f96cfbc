use crate::collections::str_views;
use vstd::prelude::*;
use vstd::string::StrSliceExecFns;

verus! {

/// `a` comes strictly before `b` in lexicographic order of code points,
/// a proper prefix coming first.
pub open spec fn id_lt(a: Seq<char>, b: Seq<char>) -> bool
    decreases a.len(),
{
    if a.len() == 0 {
        b.len() > 0
    } else if b.len() == 0 {
        false
    } else if a[0] != b[0] {
        (a[0] as int) < (b[0] as int)
    } else {
        id_lt(a.drop_first(), b.drop_first())
    }
}

/// The ids of `s` are in strictly ascending order.
pub open spec fn ids_ascending(s: Seq<Seq<char>>) -> bool {
    forall|i: int, j: int| 0 <= i < j < s.len() ==> id_lt(#[trigger] s[i], #[trigger] s[j])
}

/// No id comes before itself.
pub proof fn lemma_id_lt_irreflexive(a: Seq<char>)
    ensures
        !id_lt(a, a),
    decreases a.len(),
{
    if a.len() > 0 {
        lemma_id_lt_irreflexive(a.drop_first());
    }
}

/// The order is transitive.
pub proof fn lemma_id_lt_transitive(a: Seq<char>, b: Seq<char>, c: Seq<char>)
    requires
        id_lt(a, b),
        id_lt(b, c),
    ensures
        id_lt(a, c),
    decreases a.len(),
{
    if a.len() > 0 && a[0] == b[0] && b[0] == c[0] {
        lemma_id_lt_transitive(a.drop_first(), b.drop_first(), c.drop_first());
    }
}

/// Of two different ids, one comes first.
pub proof fn lemma_id_lt_total(a: Seq<char>, b: Seq<char>)
    requires
        a != b,
    ensures
        id_lt(a, b) || id_lt(b, a),
    decreases a.len(),
{
    if a.len() == 0 {
        assert(b.len() > 0) by {
            if b.len() == 0 {
                assert(a =~= b);
            }
        }
    } else if b.len() == 0 {
    } else if a[0] != b[0] {
        assert((a[0] as int) != (b[0] as int));
    } else {
        assert(a.drop_first() != b.drop_first()) by {
            if a.drop_first() == b.drop_first() {
                assert(a =~= seq![a[0]] + a.drop_first());
                assert(b =~= seq![b[0]] + b.drop_first());
            }
        }
        lemma_id_lt_total(a.drop_first(), b.drop_first());
    }
}

/// Compares two ids in the order `id_lt`.
pub fn id_less(a: &String, b: &String) -> (r: bool)
    ensures
        r == id_lt(a@, b@),
{
    let sa = a.as_str();
    let sb = b.as_str();
    let la = sa.unicode_len();
    let lb = sb.unicode_len();
    let mut i: usize = 0;
    assert(a@.skip(0) =~= a@ && b@.skip(0) =~= b@);
    while i < la && i < lb
        invariant
            i <= la,
            i <= lb,
            la == a@.len(),
            lb == b@.len(),
            sa@ == a@,
            sb@ == b@,
            id_lt(a@, b@) == id_lt(a@.skip(i as int), b@.skip(i as int)),
        decreases la - i,
    {
        let ca = sa.get_char(i);
        let cb = sb.get_char(i);
        assert(a@.skip(i as int)[0] == ca && b@.skip(i as int)[0] == cb);
        if ca != cb {
            return (ca as u32) < (cb as u32);
        }
        assert(a@.skip(i as int).drop_first() =~= a@.skip(i + 1));
        assert(b@.skip(i as int).drop_first() =~= b@.skip(i + 1));
        i += 1;
    }
    assert(a@.skip(i as int).len() == 0 || b@.skip(i as int).len() == 0);
    i == la && i < lb
}

/// The ids of `v`, which holds none twice, in ascending order.
pub fn sort_ids(v: Vec<String>) -> (r: Vec<String>)
    requires
        str_views(v@).no_duplicates(),
    ensures
        ids_ascending(str_views(r@)),
        str_views(r@).to_set() == str_views(v@).to_set(),
{
    let ghost vs = str_views(v@);
    let mut r: Vec<String> = Vec::new();
    let mut i: usize = 0;
    assert(str_views(r@).to_set() =~= vs.take(0).to_set());
    while i < v.len()
        invariant
            i <= v.len(),
            vs == str_views(v@),
            vs.no_duplicates(),
            ids_ascending(str_views(r@)),
            str_views(r@).to_set() == vs.take(i as int).to_set(),
        decreases v.len() - i,
    {
        let x = v[i].clone();
        let ghost xv = x@;
        let ghost rs = str_views(r@);
        assert(!rs.contains(xv)) by {
            if rs.contains(xv) {
                assert(rs.to_set().contains(xv));
                assert(vs.take(i as int).contains(xv));
                let k = choose|k: int| 0 <= k < i && vs.take(i as int)[k] == xv;
                assert(vs[k] == vs[i as int]);
            }
        }
        let mut k: usize = 0;
        while k < r.len() && !id_less(&x, &r[k])
            invariant
                k <= r.len(),
                rs == str_views(r@),
                xv == x@,
                forall|j: int| 0 <= j < k ==> !id_lt(xv, #[trigger] rs[j]),
            decreases r.len() - k,
        {
            k += 1;
        }
        proof {
            assert forall|j: int| 0 <= j < k implies id_lt(#[trigger] rs[j], xv) by {
                assert(rs[j] != xv) by {
                    if rs[j] == xv {
                        assert(rs.contains(xv));
                    }
                }
                lemma_id_lt_total(rs[j], xv);
            }
            assert forall|j: int| k <= j < rs.len() implies id_lt(xv, #[trigger] rs[j]) by {
                if j > k {
                    lemma_id_lt_transitive(xv, rs[k as int], rs[j]);
                }
            }
        }
        r.insert(k, x);
        proof {
            let ns = str_views(r@);
            assert(ns =~= rs.insert(k as int, xv));
            assert forall|a: int, b: int| 0 <= a < b < ns.len() implies id_lt(#[trigger] ns[a], #[trigger] ns[b]) by {
                if a < k && b < k {
                    assert(ns[a] == rs[a] && ns[b] == rs[b]);
                } else if a < k && b == k {
                    assert(ns[a] == rs[a]);
                } else if a < k {
                    assert(ns[a] == rs[a] && ns[b] == rs[b - 1]);
                    lemma_id_lt_transitive(rs[a], xv, rs[b - 1]);
                } else if a == k {
                    assert(ns[b] == rs[b - 1]);
                } else {
                    assert(ns[a] == rs[a - 1] && ns[b] == rs[b - 1]);
                }
            }
            rs.lemma_push_to_set_commute(xv);
            assert(ns.to_set() =~= rs.to_set().insert(xv)) by {
                assert forall|y: Seq<char>| ns.contains(y) <==> rs.contains(y) || y == xv by {
                    if ns.contains(y) {
                        let p = choose|p: int| 0 <= p < ns.len() && ns[p] == y;
                        if p < k {
                            assert(rs[p] == y);
                        } else if p > k {
                            assert(rs[p - 1] == y);
                        }
                    }
                    if rs.contains(y) {
                        let p = choose|p: int| 0 <= p < rs.len() && rs[p] == y;
                        if p < k {
                            assert(ns[p] == y);
                        } else {
                            assert(ns[p + 1] == y);
                        }
                    }
                    if y == xv {
                        assert(ns[k as int] == y);
                    }
                }
            }
            assert(vs.take(i + 1) =~= vs.take(i as int).push(xv));
            vs.take(i as int).lemma_push_to_set_commute(xv);
        }
        i += 1;
    }
    assert(vs.take(i as int) =~= vs);
    r
}

} // verus!
