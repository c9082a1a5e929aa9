//! A stable sort by `(tick, order)`, the order in which resolved messages go out.

use vstd::prelude::*;

verus! {

/// Something that goes out at a tick, ranked by `order` among messages of the
/// same tick.
pub trait Timed: Copy {
    spec fn time_key(&self) -> (u64, u64);

    fn key(&self) -> (res: (u64, u64))
        ensures
            res == self.time_key(),
    ;
}

/// `(tick, order)` compared lexicographically.
pub open spec fn key_le(a: (u64, u64), b: (u64, u64)) -> bool {
    a.0 < b.0 || (a.0 == b.0 && a.1 <= b.1)
}

/// `x` placed after every element of `s` that does not rank above it.
pub open spec fn insert_by_time<T: Timed>(s: Seq<T>, x: T) -> Seq<T>
    decreases s.len(),
{
    if s.len() == 0 || key_le(s.last().time_key(), x.time_key()) {
        s.push(x)
    } else {
        insert_by_time(s.drop_last(), x).push(s.last())
    }
}

/// `s` sorted by `(tick, order)`; elements that rank equal keep their order.
pub open spec fn sort_by_time<T: Timed>(s: Seq<T>) -> Seq<T>
    decreases s.len(),
{
    if s.len() == 0 {
        seq![]
    } else {
        insert_by_time(sort_by_time(s.drop_last()), s.last())
    }
}

fn key_le_exec(a: (u64, u64), b: (u64, u64)) -> (res: bool)
    ensures
        res == key_le(a, b),
{
    a.0 < b.0 || (a.0 == b.0 && a.1 <= b.1)
}

fn insert_timed<T: Timed>(v: &mut Vec<T>, x: T)
    ensures
        final(v)@ == insert_by_time(old(v)@, x),
{
    let k = x.key();
    let mut p = v.len();
    assert(old(v)@.take(p as int) =~= old(v)@);
    assert(old(v)@.skip(p as int) =~= Seq::<T>::empty());
    while p > 0 && !key_le_exec(v[p - 1].key(), k)
        invariant
            v@ == old(v)@,
            p <= v@.len(),
            k == x.time_key(),
            insert_by_time(v@, x) == insert_by_time(v@.take(p as int), x) + v@.skip(p as int),
        decreases p,
    {
        let ghost s = v@.take(p as int);
        assert(s.drop_last() =~= v@.take(p - 1));
        assert(s.last() == v@[p - 1]);
        assert(v@.skip(p - 1) =~= seq![v@[p - 1]] + v@.skip(p as int));
        assert(insert_by_time(s, x) == insert_by_time(v@.take(p - 1), x).push(v@[p - 1]));
        assert(insert_by_time(v@.take(p - 1), x).push(v@[p - 1]) + v@.skip(p as int)
            =~= insert_by_time(v@.take(p - 1), x) + v@.skip(p - 1));
        p = p - 1;
    }
    let ghost before = v@;
    assert(insert_by_time(before.take(p as int), x) == before.take(p as int).push(x));
    v.insert(p, x);
    assert(v@ =~= before.take(p as int).push(x) + before.skip(p as int));
}

/// Sorts by `(tick, order)`, keeping the relative order of equal keys.
pub fn sort_timed<T: Timed>(v: &Vec<T>) -> (res: Vec<T>)
    ensures
        res@ == sort_by_time(v@),
{
    let mut out: Vec<T> = Vec::new();
    let mut i: usize = 0;
    while i < v.len()
        invariant
            i <= v@.len(),
            out@ == sort_by_time(v@.take(i as int)),
        decreases v@.len() - i,
    {
        assert(v@.take(i + 1).drop_last() =~= v@.take(i as int));
        insert_timed(&mut out, v[i]);
        i = i + 1;
    }
    assert(v@.take(v@.len() as int) =~= v@);
    out
}

/// Every element ranks no higher than every later one.
pub open spec fn time_sorted<T: Timed>(s: Seq<T>) -> bool {
    forall|i: int, j: int| 0 <= i < j < s.len() ==> key_le(s[i].time_key(), s[j].time_key())
}

proof fn lemma_insert_elements<T: Timed>(s: Seq<T>, x: T)
    ensures
        insert_by_time(s, x).len() == s.len() + 1,
        insert_by_time(s, x).to_multiset() == s.to_multiset().insert(x),
        forall|y: T| insert_by_time(s, x).contains(y) ==> y == x || s.contains(y),
    decreases s.len(),
{
    if s.len() == 0 || key_le(s.last().time_key(), x.time_key()) {
        s.to_multiset_ensures();
        assert forall|y: T| insert_by_time(s, x).contains(y) implies y == x || s.contains(y) by {
            let k = choose|k: int| 0 <= k < s.len() + 1 && s.push(x)[k] == y;
            if k < s.len() {
                assert(s[k] == y);
            }
        }
    } else {
        let d = s.drop_last();
        lemma_insert_elements(d, x);
        let r = insert_by_time(d, x);
        r.to_multiset_ensures();
        s.to_multiset_ensures();
        d.to_multiset_ensures();
        assert(s =~= d.push(s.last()));
        assert(r.push(s.last()).to_multiset() =~= s.to_multiset().insert(x));
        assert forall|y: T| insert_by_time(s, x).contains(y) implies y == x || s.contains(y) by {
            let k = choose|k: int| 0 <= k < r.len() + 1 && r.push(s.last())[k] == y;
            if k < r.len() {
                assert(r.contains(y));
                if y != x {
                    assert(d.contains(y));
                    let m = choose|m: int| 0 <= m < d.len() && d[m] == y;
                    assert(s[m] == y);
                }
            } else {
                assert(s[s.len() - 1] == y);
            }
        }
    }
}

proof fn lemma_insert_sorted<T: Timed>(s: Seq<T>, x: T)
    requires
        time_sorted(s),
    ensures
        time_sorted(insert_by_time(s, x)),
    decreases s.len(),
{
    lemma_insert_elements(s, x);
    if s.len() == 0 || key_le(s.last().time_key(), x.time_key()) {
        let r = s.push(x);
        assert forall|i: int, j: int| 0 <= i < j < r.len() implies key_le(r[i].time_key(), r[j].time_key()) by {
            if j == s.len() {
                assert(key_le(s[i].time_key(), s.last().time_key()) || i == s.len() - 1);
            }
        }
    } else {
        let d = s.drop_last();
        assert(time_sorted(d));
        lemma_insert_sorted(d, x);
        lemma_insert_elements(d, x);
        let r = insert_by_time(d, x);
        let t = r.push(s.last());
        assert forall|i: int, j: int| 0 <= i < j < t.len() implies key_le(t[i].time_key(), t[j].time_key()) by {
            if j == r.len() {
                let y = r[i];
                assert(t[i] == y);
                assert(r.contains(y));
                if y != x {
                    assert(d.contains(y));
                    let m = choose|m: int| 0 <= m < d.len() && d[m] == y;
                    assert(d[m] == s[m]);
                    assert(key_le(s[m].time_key(), s[s.len() - 1].time_key()));
                }
            }
        }
    }
}

/// The sort puts every message in `(tick, order)` order and keeps exactly the
/// messages it was given.
pub proof fn law_sort_by_time<T: Timed>(s: Seq<T>)
    ensures
        time_sorted(sort_by_time(s)),
        sort_by_time(s).to_multiset() == s.to_multiset(),
        sort_by_time(s).len() == s.len(),
    decreases s.len(),
{
    if s.len() > 0 {
        let d = s.drop_last();
        law_sort_by_time(d);
        lemma_insert_sorted(sort_by_time(d), s.last());
        lemma_insert_elements(sort_by_time(d), s.last());
        s.to_multiset_ensures();
        d.to_multiset_ensures();
        assert(s =~= d.push(s.last()));
    } else {
        assert(s =~= Seq::<T>::empty());
        assert(sort_by_time(s) =~= s);
    }
}

} // verus!
