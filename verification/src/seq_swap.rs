//! A fact about removing a sequence element by swapping the last element into
//! its place: as a multiset, exactly the removed element is gone.

use vstd::prelude::*;

verus! {

use vstd::seq_lib::*;

/// Removing the element at `i` by overwriting it with the last element and
/// dropping the last position leaves the sequence's multiset with exactly
/// that one element removed.
pub proof fn lemma_swap_remove_multiset<A>(s: Seq<A>, i: int)
    requires
        0 <= i < s.len(),
    ensures
        s.update(i, s.last()).drop_last().to_multiset() == s.to_multiset().remove(s[i]),
{
    broadcast use group_to_multiset_ensures;

    if i == s.len() - 1 {
        assert(s.update(i, s.last()) =~= s);
        assert(s.update(i, s.last()).drop_last() =~= s.remove(i));
    } else {
        let d = s.drop_last();
        let x = s.last();
        let t = s.update(i, x).drop_last();
        assert(t =~= d.update(i, x));
        assert(d =~= s.remove(s.len() - 1));
        assert(d.to_multiset() =~= s.to_multiset().remove(x));
        lemma_update_is_remove_insert(d, i, x);
        assert(d.update(i, x).to_multiset() =~= d.remove(i).insert(i, x).to_multiset());
        to_multiset_insert(d.remove(i), i, x);
        assert(d.remove(i).to_multiset() =~= d.to_multiset().remove(d[i]));
        assert(d[i] == s[i]);
        assert(t.to_multiset() =~= s.to_multiset().remove(x).remove(s[i]).insert(x));
        assert(s.to_multiset().remove(x).remove(s[i]).insert(x) =~= s.to_multiset().remove(s[i]))
            by {
            assert(s.to_multiset().count(x) >= 1) by {
                assert(s[s.len() - 1] == x);
                assert(s.contains(x));
            }
        }
    }
}

} // verus!
