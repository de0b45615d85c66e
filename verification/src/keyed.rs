//! Lists whose items are told apart by a key: the model of the tables of the
//! server. An item that comes first stays first.

use vstd::prelude::*;

verus! {

/// An item that has a key.
pub trait Keyed: Sized {
    type Key;

    spec fn key(self) -> Self::Key;
}

/// Whether no two items have the same key.
pub open spec fn distinct<T: Keyed>(s: Seq<T>) -> bool {
    forall|i: int, j: int|
        0 <= i < s.len() && 0 <= j < s.len() && i != j ==> (#[trigger] s[i]).key() != (
        #[trigger] s[j]).key()
}

/// Whether an item has the key `k`.
pub open spec fn holds<T: Keyed>(s: Seq<T>, k: T::Key) -> bool {
    exists|i: int| 0 <= i < s.len() && (#[trigger] s[i]).key() == k
}

/// Where the item with the key `k` stands.
pub open spec fn place<T: Keyed>(s: Seq<T>, k: T::Key) -> int {
    choose|i: int| 0 <= i < s.len() && (#[trigger] s[i]).key() == k
}

/// The item with the key `k`.
pub open spec fn lookup<T: Keyed>(s: Seq<T>, k: T::Key) -> Option<T> {
    if holds(s, k) {
        Some(s[place(s, k)])
    } else {
        None
    }
}

/// The list with `t` in it: in the place of the item with the same key, or else
/// at the end.
pub open spec fn put<T: Keyed>(s: Seq<T>, t: T) -> Seq<T> {
    if holds(s, t.key()) {
        s.update(place(s, t.key()), t)
    } else {
        s.push(t)
    }
}

/// The list without the item that has the key `k`.
pub open spec fn without<T: Keyed>(s: Seq<T>, k: T::Key) -> Seq<T> {
    if holds(s, k) {
        s.remove(place(s, k))
    } else {
        s
    }
}

/// An item stands in the place of its key.
pub(crate) proof fn lemma_place<T: Keyed>(s: Seq<T>, i: int)
    requires
        distinct(s),
        0 <= i < s.len(),
    ensures
        holds(s, s[i].key()),
        place(s, s[i].key()) == i,
        lookup(s, s[i].key()) == Some(s[i]),
{
    let p = place(s, s[i].key());
    assert(s[i].key() == s[i].key());
    assert(0 <= p < s.len() && s[p].key() == s[i].key());
}

/// What [`lookup`] finds is in the list and has the key.
pub(crate) proof fn lemma_found<T: Keyed>(s: Seq<T>, k: T::Key)
    requires
        holds(s, k),
    ensures
        0 <= place(s, k) < s.len(),
        s[place(s, k)].key() == k,
        lookup(s, k) == Some(s[place(s, k)]),
{
}

/// Putting an item in changes what is found under its key and nothing else.
pub proof fn put_then_lookup<T: Keyed>(s: Seq<T>, t: T, k: T::Key)
    requires
        distinct(s),
    ensures
        distinct(put(s, t)),
        lookup(put(s, t), t.key()) == Some(t),
        k != t.key() ==> lookup(put(s, t), k) == lookup(s, k),
        put(s, t).len() == s.len() + (if holds(s, t.key()) {
            0int
        } else {
            1int
        }),
{
    let after = put(s, t);
    if holds(s, t.key()) {
        lemma_found(s, t.key());
        let p = place(s, t.key());
        assert(after[p] == t);
        lemma_place(after, p);
        assert forall|i: int| 0 <= i < s.len() && i != p implies after[i] == s[i] by {}
    } else {
        assert(after[s.len() as int] == t);
        assert forall|i: int| 0 <= i < s.len() implies (#[trigger] s[i]).key() != t.key() by {}
        assert(distinct(after));
        lemma_place(after, s.len() as int);
    }
    if k != t.key() {
        if holds(s, k) {
            lemma_found(s, k);
            let p = place(s, k);
            assert(after[p] == s[p]);
            lemma_place(after, p);
        } else if holds(after, k) {
            lemma_found(after, k);
            let p = place(after, k);
            assert(after[p] != t);
            assert(after[p] == s[p]);
        }
    }
}

/// Taking an item out removes what is found under its key and nothing else.
pub proof fn without_then_lookup<T: Keyed>(s: Seq<T>, gone: T::Key, k: T::Key)
    requires
        distinct(s),
    ensures
        distinct(without(s, gone)),
        !holds(without(s, gone), gone),
        k != gone ==> lookup(without(s, gone), k) == lookup(s, k),
        without(s, gone).len() == s.len() - (if holds(s, gone) {
            1int
        } else {
            0int
        }),
{
    let after = without(s, gone);
    if holds(s, gone) {
        lemma_found(s, gone);
        let p = place(s, gone);
        assert forall|i: int| 0 <= i < after.len() implies #[trigger] after[i] == s[if i < p {
            i
        } else {
            i + 1
        }] by {}
        if holds(after, gone) {
            let q = place(after, gone);
            lemma_found(after, gone);
            assert(after[q] == s[if q < p {
                q
            } else {
                q + 1
            }]);
        }
        if k != gone {
            if holds(s, k) {
                lemma_found(s, k);
                let q = place(s, k);
                let r = if q < p {
                    q
                } else {
                    q - 1
                };
                assert(after[r] == s[q]);
                lemma_place(after, r);
            } else if holds(after, k) {
                lemma_found(after, k);
                let q = place(after, k);
                assert(after[q] == s[if q < p {
                    q
                } else {
                    q + 1
                }]);
            }
        }
    }
}

/// An item that is put into a list that has no such key, and taken out again,
/// leaves the list as it was.
pub proof fn put_then_without<T: Keyed>(s: Seq<T>, t: T)
    requires
        distinct(s),
        !holds(s, t.key()),
    ensures
        without(put(s, t), t.key()) == s,
{
    let after = put(s, t);
    put_then_lookup(s, t, t.key());
    assert(after[s.len() as int] == t);
    lemma_place(after, s.len() as int);
    assert(after.remove(s.len() as int) =~= s);
}

/// Keeping some of the items removes the others and nothing else.
pub proof fn filter_then_lookup<T: Keyed>(s: Seq<T>, keep: spec_fn(T) -> bool, k: T::Key)
    requires
        distinct(s),
    ensures
        distinct(s.filter(keep)),
        lookup(s.filter(keep), k) == (match lookup(s, k) {
            Some(t) => if keep(t) {
                Some(t)
            } else {
                None
            },
            None => None,
        }),
    decreases s.len(),
{
    reveal(Seq::filter);
    if s.len() > 0 {
        let front = s.drop_last();
        let last = s.last();
        assert forall|i: int| 0 <= i < front.len() implies (#[trigger] front[i]).key()
            != last.key() by {
            assert(front[i] == s[i] && s[s.len() - 1] == last);
        }
        assert(distinct(front)) by {
            assert forall|i: int, j: int|
                0 <= i < front.len() && 0 <= j < front.len() && i != j implies (
            #[trigger] front[i]).key() != (#[trigger] front[j]).key() by {
                assert(front[i] == s[i] && front[j] == s[j]);
            }
        }
        filter_then_lookup(front, keep, k);
        filter_then_lookup(front, keep, last.key());
        assert(put(front, last) =~= s);
        put_then_lookup(front, last, k);
        put_then_lookup(front.filter(keep), last, k);
    }
}

/// Two tests that agree on the items keep the same ones.
pub(crate) proof fn lemma_filter_same<T>(
    s: Seq<T>,
    p: spec_fn(T) -> bool,
    q: spec_fn(T) -> bool,
)
    requires
        forall|i: int| 0 <= i < s.len() ==> p(#[trigger] s[i]) == q(s[i]),
    ensures
        s.filter(p) == s.filter(q),
    decreases s.len(),
{
    reveal(Seq::filter);
    if s.len() > 0 {
        let front = s.drop_last();
        assert forall|i: int| 0 <= i < front.len() implies p(#[trigger] front[i]) == q(
            front[i],
        ) by {
            assert(front[i] == s[i]);
        }
        lemma_filter_same(front, p, q);
        assert(p(s[s.len() - 1]) == q(s[s.len() - 1]));
    }
}

/// Keeping by one test and then by another keeps what meets both.
pub(crate) proof fn lemma_filter_twice<T>(
    s: Seq<T>,
    p: spec_fn(T) -> bool,
    q: spec_fn(T) -> bool,
    both: spec_fn(T) -> bool,
)
    requires
        forall|t: T| #[trigger] both(t) <==> p(t) && q(t),
    ensures
        s.filter(p).filter(q) == s.filter(both),
    decreases s.len(),
{
    reveal(Seq::filter);
    if s.len() > 0 {
        let front = s.drop_last();
        lemma_filter_twice(front, p, q, both);
        if p(s.last()) {
            assert(front.filter(p).push(s.last()).drop_last() =~= front.filter(p));
        }
    }
}

/// Taking an item out keeps the others, in their order.
pub(crate) proof fn lemma_without_is_filter<T: Keyed>(
    s: Seq<T>,
    k: T::Key,
    keep: spec_fn(T) -> bool,
)
    requires
        distinct(s),
        forall|t: T| #[trigger] keep(t) <==> t.key() != k,
    ensures
        without(s, k) == s.filter(keep),
    decreases s.len(),
{
    reveal(Seq::filter);
    if s.len() == 0 {
        assert(without(s, k) =~= s.filter(keep));
    } else {
        let front = s.drop_last();
        let last = s.last();
        assert forall|i: int| 0 <= i < front.len() implies (#[trigger] front[i]).key()
            != last.key() by {
            assert(front[i] == s[i] && s[s.len() - 1] == last);
        }
        assert(distinct(front)) by {
            assert forall|i: int, j: int|
                0 <= i < front.len() && 0 <= j < front.len() && i != j implies (
            #[trigger] front[i]).key() != (#[trigger] front[j]).key() by {
                assert(front[i] == s[i] && front[j] == s[j]);
            }
        }
        lemma_without_is_filter(front, k, keep);
        if holds(front, k) {
            lemma_found(front, k);
            let p = place(front, k);
            assert(s[p] == front[p]);
            lemma_place(s, p);
            assert(s.remove(p) =~= front.remove(p).push(last));
        } else if last.key() == k {
            lemma_place(s, s.len() - 1);
            assert(s.remove(s.len() - 1) =~= front);
        } else {
            assert(!holds(s, k)) by {
                if holds(s, k) {
                    lemma_found(s, k);
                    let p = place(s, k);
                    assert(front[p] == s[p]);
                }
            }
            assert(s =~= front.push(last));
        }
    }
}

} // verus!
