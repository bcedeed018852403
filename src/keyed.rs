//! Small keyed tables: vectors of `(key, value)` pairs looked up by the
//! first entry with a given key.
use vstd::prelude::*;

verus! {

/// The value of the first entry whose key is `k`.
pub open spec fn find_first<V>(s: Seq<(String, V)>, k: Seq<char>) -> Option<V>
    decreases s.len(),
{
    if s.len() == 0 {
        None
    } else if s[0].0@ == k {
        Some(s[0].1)
    } else {
        find_first(s.drop_first(), k)
    }
}

pub proof fn lemma_find_first_skip<V>(s: Seq<(String, V)>, k: Seq<char>, i: int)
    requires
        0 <= i <= s.len(),
        forall|j: int| 0 <= j < i ==> (#[trigger] s[j]).0@ != k,
    ensures
        find_first(s, k) == find_first(s.subrange(i, s.len() as int), k),
    decreases i,
{
    if i > 0 {
        assert(s.drop_first().subrange(i - 1, s.drop_first().len() as int) == s.subrange(i, s.len() as int));
        assert forall|j: int| 0 <= j < i - 1 implies (#[trigger] s.drop_first()[j]).0@ != k by {
            assert(s.drop_first()[j] == s[j + 1]);
        }
        lemma_find_first_skip(s.drop_first(), k, i - 1);
    } else {
        assert(s.subrange(0, s.len() as int) == s);
    }
}

pub proof fn lemma_find_first_update<V>(s: Seq<(String, V)>, i: int, x: (String, V), other: Seq<char>)
    requires
        0 <= i < s.len(),
        x.0@ == s[i].0@,
        forall|j: int| 0 <= j < i ==> (#[trigger] s[j]).0@ != s[i].0@,
    ensures
        find_first(s.update(i, x), x.0@) == Some(x.1),
        other != x.0@ ==> find_first(s.update(i, x), other) == find_first(s, other),
    decreases i,
{
    if i > 0 {
        assert(s.update(i, x).drop_first() == s.drop_first().update(i - 1, x));
        assert forall|j: int| 0 <= j < i - 1 implies (#[trigger] s.drop_first()[j]).0@ != s.drop_first()[i - 1].0@ by {
            assert(s.drop_first()[j] == s[j + 1]);
        }
        lemma_find_first_update(s.drop_first(), i - 1, x, other);
    } else {
        assert(s.update(i, x).drop_first() == s.drop_first());
    }
}

pub proof fn lemma_find_first_push<V>(s: Seq<(String, V)>, x: (String, V), other: Seq<char>)
    ensures
        find_first(s.push(x), other) == match find_first(s, other) {
            Some(m) => Some(m),
            None => if x.0@ == other { Some(x.1) } else { None },
        },
    decreases s.len(),
{
    if s.len() > 0 {
        assert(s.push(x).drop_first() == s.drop_first().push(x));
        lemma_find_first_push(s.drop_first(), x, other);
    } else {
        assert(s.push(x).drop_first() == s);
    }
}

pub proof fn lemma_find_first_remove<V>(s: Seq<(String, V)>, i: int, other: Seq<char>)
    requires
        0 <= i < s.len(),
        forall|j: int| 0 <= j < s.len() && j != i ==> (#[trigger] s[j]).0@ != s[i].0@,
    ensures
        find_first(s.remove(i), s[i].0@) is None,
        other != s[i].0@ ==> find_first(s.remove(i), other) == find_first(s, other),
    decreases s.len(),
{
    if i > 0 {
        assert(s.remove(i).drop_first() == s.drop_first().remove(i - 1));
        assert forall|j: int| 0 <= j < s.drop_first().len() && j != i - 1 implies (#[trigger] s.drop_first()[j]).0@ != s.drop_first()[i - 1].0@ by {
            assert(s.drop_first()[j] == s[j + 1]);
        }
        lemma_find_first_remove(s.drop_first(), i - 1, other);
    } else {
        assert(s.remove(0) == s.drop_first());
        lemma_find_first_absent(s.drop_first(), s[0].0@);
    }
}

pub proof fn lemma_find_first_absent<V>(s: Seq<(String, V)>, k: Seq<char>)
    requires
        forall|j: int| 0 <= j < s.len() ==> (#[trigger] s[j]).0@ != k,
    ensures
        find_first(s, k) is None,
    decreases s.len(),
{
    if s.len() > 0 {
        assert forall|j: int| 0 <= j < s.drop_first().len() implies (#[trigger] s.drop_first()[j]).0@ != k by {
            assert(s.drop_first()[j] == s[j + 1]);
        }
        lemma_find_first_absent(s.drop_first(), k);
    }
}

/// Keys appear at most once.
pub open spec fn keys_unique<V>(s: Seq<(String, V)>) -> bool {
    forall|i: int, j: int| 0 <= i < s.len() && 0 <= j < s.len() && i != j ==> (#[trigger] s[i]).0@ != (#[trigger] s[j]).0@
}

} // verus!
