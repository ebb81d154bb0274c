//! Sorted sequences of names.

use vstd::prelude::*;

use crate::name::Name;
use crate::text;

verus! {

/// The texts of some names.
pub open spec fn texts(names: Seq<Name>) -> Seq<Seq<char>> {
    names.map_values(|n: Name| n@)
}

/// Each text at or after those before it.
pub open spec fn ascending(s: Seq<Seq<char>>) -> bool {
    forall|i: int, j: int| 0 <= i < j < s.len() ==> !text::less(#[trigger] s[j], #[trigger] s[i])
}

/// Each text strictly after those before it.
pub open spec fn strictly_ascending(s: Seq<Seq<char>>) -> bool {
    forall|i: int, j: int| 0 <= i < j < s.len() ==> text::less(#[trigger] s[i], #[trigger] s[j])
}

/// Two ascending sequences of the same texts are one sequence.
pub proof fn ascending_is_unique(a: Seq<Seq<char>>, b: Seq<Seq<char>>)
    requires
        ascending(a),
        ascending(b),
        a.to_multiset() == b.to_multiset(),
    ensures
        a == b,
    decreases a.len(),
{
    broadcast use vstd::seq_lib::group_to_multiset_ensures;

    assert(a.len() == a.to_multiset().len());
    assert(b.len() == b.to_multiset().len());
    if a.len() == 0 {
        assert(a =~= b);
    } else {
        assert(a.to_multiset().count(a[0]) > 0) by {
            assert(a.contains(a[0]));
        }
        assert(b.contains(a[0]));
        assert(a.to_multiset().count(b[0]) > 0) by {
            assert(b.contains(b[0]));
        }
        assert(a.contains(b[0]));
        let i = choose|i: int| 0 <= i < b.len() && b[i] == a[0];
        let j = choose|j: int| 0 <= j < a.len() && a[j] == b[0];
        text::less_is_total(a[0], b[0]);
        text::less_is_irreflexive(a[0]);
        assert(a[0] == b[0]);
        let a1 = a.remove(0);
        let b1 = b.remove(0);
        assert(a1.to_multiset() == b1.to_multiset());
        assert(forall|k: int| 0 <= k < a1.len() ==> a1[k] == a[k + 1]);
        assert(forall|k: int| 0 <= k < b1.len() ==> b1[k] == b[k + 1]);
        ascending_is_unique(a1, b1);
        assert(a =~= seq![a[0]] + a1);
        assert(b =~= seq![b[0]] + b1);
    }
}

/// Insert a name after those that come before it.
fn insert_name(names: &mut Vec<Name>, name: Name)
    requires
        ascending(texts(old(names)@)),
    ensures
        ascending(texts(final(names)@)),
        texts(final(names)@).to_multiset() == texts(old(names)@).to_multiset().insert(name@),
{
    let mut p: usize = 0;
    while p < names.len() && text::comes_before(names[p].as_str(), name.as_str())
        invariant
            p <= names@.len(),
            forall|i: int| 0 <= i < p ==> text::less(#[trigger] texts(names@)[i], name@),
        decreases names@.len() - p,
    {
        p = p + 1;
    }
    let ghost before = texts(names@);
    let ghost spot = name@;
    let ghost here = p as int;
    names.insert(p, name);
    proof {
        assert(texts(names@) =~= before.insert(here, spot));
        vstd::seq_lib::to_multiset_insert(before, here, spot);
        let after = texts(names@);
        assert forall|i: int, j: int| 0 <= i < j < after.len() implies !text::less(
            #[trigger] after[j],
            #[trigger] after[i],
        ) by {
            let a = if i < here {
                before[i]
            } else if i == here {
                spot
            } else {
                before[i - 1]
            };
            let b = if j < here {
                before[j]
            } else if j == here {
                spot
            } else {
                before[j - 1]
            };
            assert(after[i] == a);
            assert(after[j] == b);
            if j == here {
                if text::less(b, a) {
                    text::less_is_transitive(a, b, a);
                    text::less_is_irreflexive(a);
                }
            } else if i == here {
                // Nothing from the insertion point on comes before the name.
                let first = before[here];
                if text::less(b, a) {
                    text::less_is_total(first, b);
                    if text::less(first, b) {
                        text::less_is_transitive(first, b, a);
                    } else if text::less(b, first) {
                        assert(j - 1 > here);
                    }
                }
            }
        }
    }
}

/// The same names in ascending order.
pub fn sorted(names: Vec<Name>) -> (r: Vec<Name>)
    ensures
        ascending(texts(r@)),
        texts(r@).to_multiset() == texts(names@).to_multiset(),
{
    broadcast use vstd::seq_lib::group_to_multiset_ensures;

    let mut out: Vec<Name> = Vec::new();
    let mut i: usize = 0;
    proof {
        assert(texts(out@) =~= Seq::<Seq<char>>::empty());
        assert(texts(names@).take(0) =~= Seq::<Seq<char>>::empty());
    }
    while i < names.len()
        invariant
            i <= names@.len(),
            ascending(texts(out@)),
            texts(out@).to_multiset() == texts(names@).take(i as int).to_multiset(),
        decreases names@.len() - i,
    {
        proof {
            assert(texts(names@).take(i + 1) =~= texts(names@).take(i as int).push(
                names@[i as int]@,
            ));
        }
        insert_name(&mut out, names[i].clone());
        proof {
            vstd::seq_lib::to_multiset_build(texts(names@).take(i as int), names@[i as int]@);
        }
        i = i + 1;
    }
    proof {
        assert(texts(names@).take(i as int) =~= texts(names@));
    }
    out
}

} // verus!
