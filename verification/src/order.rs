//! The order in which names are listed: that of their characters, the
//! first difference deciding.

use vstd::prelude::*;

verus! {

/// Whether `a` comes before `b` or is `b`: at the first place where the
/// two differ `a` has the lesser character, or `a` ends there.
pub open spec fn name_le(a: Seq<char>, b: Seq<char>) -> bool
    decreases a.len(),
{
    if a.len() == 0 {
        true
    } else if b.len() == 0 {
        false
    } else if a[0] == b[0] {
        name_le(a.drop_first(), b.drop_first())
    } else {
        (a[0] as int) < (b[0] as int)
    }
}

pub proof fn lemma_le_antisymmetric(a: Seq<char>, b: Seq<char>)
    requires
        name_le(a, b),
        name_le(b, a),
    ensures
        a == b,
    decreases a.len(),
{
    if a.len() == 0 || b.len() == 0 {
        assert(a =~= b);
    } else {
        lemma_le_antisymmetric(a.drop_first(), b.drop_first());
        assert(a =~= seq![a[0]] + a.drop_first());
        assert(b =~= seq![b[0]] + b.drop_first());
    }
}

pub proof fn lemma_le_total(a: Seq<char>, b: Seq<char>)
    ensures
        name_le(a, b) || name_le(b, a),
    decreases a.len(),
{
    if a.len() > 0 && b.len() > 0 {
        if a[0] == b[0] {
            lemma_le_total(a.drop_first(), b.drop_first());
        } else {
            assert(a[0] as int != b[0] as int);
        }
    }
}

pub proof fn lemma_le_transitive(a: Seq<char>, b: Seq<char>, c: Seq<char>)
    requires
        name_le(a, b),
        name_le(b, c),
    ensures
        name_le(a, c),
    decreases a.len(),
{
    if a.len() > 0 && b.len() > 0 && c.len() > 0 && a[0] == b[0] && b[0] == c[0] {
        lemma_le_transitive(a.drop_first(), b.drop_first(), c.drop_first());
    }
}

/// Whether each name comes strictly before those behind it.
pub open spec fn ascending(names: Seq<Seq<char>>) -> bool {
    forall|i: int, j: int|
        0 <= i < j < names.len() ==> name_le(#[trigger] names[i], #[trigger] names[j])
            && names[i] != names[j]
}

/// Whether `names` holds exactly the names of `set`, each once, in
/// ascending order.
pub open spec fn lists(names: Seq<Seq<char>>, set: Set<Seq<char>>) -> bool {
    ascending(names) && names.to_set() == set
}

/// The names of a finite set in ascending order.
pub open spec fn name_order(set: Set<Seq<char>>) -> Seq<Seq<char>> {
    choose|names: Seq<Seq<char>>| lists(names, set)
}

proof fn lemma_tail_lists(names: Seq<Seq<char>>, set: Set<Seq<char>>)
    requires
        lists(names, set),
        names.len() > 0,
    ensures
        lists(names.drop_first(), set.remove(names[0])),
{
    let tail = names.drop_first();
    assert forall|i: int, j: int| 0 <= i < j < tail.len() implies name_le(
        #[trigger] tail[i],
        #[trigger] tail[j],
    ) && tail[i] != tail[j] by {
        assert(tail[i] == names[i + 1] && tail[j] == names[j + 1]);
    }
    assert forall|x: Seq<char>| tail.to_set().contains(x) <==> set.remove(names[0]).contains(
        x,
    ) by {
        if tail.contains(x) {
            let i = choose|i: int| 0 <= i < tail.len() && tail[i] == x;
            assert(names[i + 1] == x);
            assert(names.contains(x));
            assert(names.to_set().contains(x));
        }
        if set.remove(names[0]).contains(x) {
            assert(names.to_set().contains(x));
            assert(names.contains(x));
            let i = choose|i: int| 0 <= i < names.len() && names[i] == x;
            assert(tail[i - 1] == x);
        }
    }
    assert(tail.to_set() =~= set.remove(names[0]));
}

proof fn lemma_first_is_least(names: Seq<Seq<char>>, set: Set<Seq<char>>, x: Seq<char>)
    requires
        lists(names, set),
        set.contains(x),
    ensures
        names.len() > 0,
        name_le(names[0], x),
{
    assert(names.to_set().contains(x));
    assert(names.contains(x));
    let i = choose|i: int| 0 <= i < names.len() && names[i] == x;
    if i == 0 {
        lemma_le_total(x, x);
    }
}

/// A set has one ascending listing at most.
pub proof fn lemma_listing_unique(a: Seq<Seq<char>>, b: Seq<Seq<char>>, set: Set<Seq<char>>)
    requires
        lists(a, set),
        lists(b, set),
    ensures
        a == b,
    decreases a.len(),
{
    if a.len() == 0 {
        if b.len() > 0 {
            assert(b.contains(b[0]));
            assert(b.to_set().contains(b[0]));
            assert(a.to_set().contains(b[0]));
            assert(a.contains(b[0]));
        }
        assert(a =~= b);
    } else {
        assert(a.contains(a[0]));
        assert(a.to_set().contains(a[0]));
        lemma_first_is_least(b, set, a[0]);
        assert(b.contains(b[0]));
        assert(b.to_set().contains(b[0]));
        lemma_first_is_least(a, set, b[0]);
        lemma_le_antisymmetric(a[0], b[0]);
        lemma_tail_lists(a, set);
        lemma_tail_lists(b, set);
        lemma_listing_unique(a.drop_first(), b.drop_first(), set.remove(a[0]));
        assert(a =~= seq![a[0]] + a.drop_first());
        assert(b =~= seq![b[0]] + b.drop_first());
    }
}

/// `names` with `x` put in before the first name that does not come before
/// it.
spec fn with_name(names: Seq<Seq<char>>, x: Seq<char>) -> Seq<Seq<char>>
    decreases names.len(),
{
    if names.len() == 0 {
        seq![x]
    } else if name_le(x, names[0]) {
        seq![x] + names
    } else {
        seq![names[0]] + with_name(names.drop_first(), x)
    }
}

proof fn lemma_with_name(names: Seq<Seq<char>>, x: Seq<char>)
    requires
        ascending(names),
        !names.contains(x),
    ensures
        ascending(with_name(names, x)),
        with_name(names, x).to_set() == names.to_set().insert(x),
    decreases names.len(),
{
    let out = with_name(names, x);
    if names.len() == 0 {
        assert(out.to_set() =~= names.to_set().insert(x)) by {
            assert forall|y: Seq<char>| out.to_set().contains(y) <==> names.to_set().insert(
                x,
            ).contains(y) by {
                if out.contains(y) {
                    let i = choose|i: int| 0 <= i < out.len() && out[i] == y;
                }
                if y == x {
                    assert(out[0] == x);
                }
                if names.contains(y) {
                    let i = choose|i: int| 0 <= i < names.len() && names[i] == y;
                }
            }
        }
    } else if name_le(x, names[0]) {
        assert forall|i: int, j: int| 0 <= i < j < out.len() implies name_le(
            #[trigger] out[i],
            #[trigger] out[j],
        ) && out[i] != out[j] by {
            if i == 0 {
                assert(out[j] == names[j - 1]);
                assert(names.contains(names[j - 1]));
                if j - 1 > 0 {
                    lemma_le_transitive(x, names[0], names[j - 1]);
                }
            } else {
                assert(out[i] == names[i - 1] && out[j] == names[j - 1]);
            }
        }
        assert forall|y: Seq<char>| out.to_set().contains(y) <==> names.to_set().insert(
            x,
        ).contains(y) by {
            if out.contains(y) {
                let i = choose|i: int| 0 <= i < out.len() && out[i] == y;
                if i > 0 {
                    assert(names[i - 1] == y);
                    assert(names.contains(y));
                }
            }
            if y == x {
                assert(out[0] == x);
            }
            if names.contains(y) {
                let i = choose|i: int| 0 <= i < names.len() && names[i] == y;
                assert(out[i + 1] == y);
            }
        }
        assert(out.to_set() =~= names.to_set().insert(x));
    } else {
        let tail = names.drop_first();
        let rest = with_name(tail, x);
        assert(ascending(tail)) by {
            assert forall|i: int, j: int| 0 <= i < j < tail.len() implies name_le(
                #[trigger] tail[i],
                #[trigger] tail[j],
            ) && tail[i] != tail[j] by {
                assert(tail[i] == names[i + 1] && tail[j] == names[j + 1]);
            }
        }
        assert(!tail.contains(x)) by {
            if tail.contains(x) {
                let i = choose|i: int| 0 <= i < tail.len() && tail[i] == x;
                assert(names[i + 1] == x);
            }
        }
        lemma_with_name(tail, x);
        lemma_le_total(x, names[0]);
        assert(names[0] != x) by {
            assert(names.contains(names[0]));
        }
        assert forall|i: int, j: int| 0 <= i < j < out.len() implies name_le(
            #[trigger] out[i],
            #[trigger] out[j],
        ) && out[i] != out[j] by {
            if i == 0 {
                assert(out[j] == rest[j - 1]);
                assert(rest.contains(rest[j - 1]));
                assert(rest.to_set().contains(rest[j - 1]));
                assert(tail.to_set().insert(x).contains(rest[j - 1]));
                if rest[j - 1] != x {
                    assert(tail.contains(rest[j - 1]));
                    let k = choose|k: int| 0 <= k < tail.len() && tail[k] == rest[j - 1];
                    assert(names[k + 1] == rest[j - 1]);
                }
            } else {
                assert(out[i] == rest[i - 1] && out[j] == rest[j - 1]);
            }
        }
        assert forall|y: Seq<char>| out.to_set().contains(y) <==> names.to_set().insert(
            x,
        ).contains(y) by {
            if out.contains(y) {
                let i = choose|i: int| 0 <= i < out.len() && out[i] == y;
                if i > 0 {
                    assert(rest[i - 1] == y);
                    assert(rest.contains(y));
                    assert(rest.to_set().contains(y));
                    if y != x {
                        assert(tail.contains(y));
                        let k = choose|k: int| 0 <= k < tail.len() && tail[k] == y;
                        assert(names[k + 1] == y);
                    }
                } else {
                    assert(names.contains(names[0]));
                }
            }
            if names.to_set().insert(x).contains(y) {
                if y == names[0] {
                    assert(out[0] == y);
                } else {
                    if y != x {
                        assert(names.contains(y));
                        let k = choose|k: int| 0 <= k < names.len() && names[k] == y;
                        assert(tail[k - 1] == y);
                        assert(tail.contains(y));
                    }
                    assert(tail.to_set().insert(x).contains(y));
                    assert(rest.to_set().contains(y));
                    assert(rest.contains(y));
                    let k = choose|k: int| 0 <= k < rest.len() && rest[k] == y;
                    assert(out[k + 1] == y);
                }
            }
        }
        assert(out.to_set() =~= names.to_set().insert(x));
    }
}

/// Every finite set of names has an ascending listing, and `name_order`
/// is it.
pub proof fn lemma_listing_exists(set: Set<Seq<char>>)
    requires
        set.finite(),
    ensures
        lists(name_order(set), set),
    decreases set.len(),
{
    if set.len() == 0 {
        let none = Seq::<Seq<char>>::empty();
        assert(set =~= Set::<Seq<char>>::empty());
        assert(none.to_set() =~= set);
        assert(lists(none, set));
    } else {
        let x = set.choose();
        let rest = set.remove(x);
        lemma_listing_exists(rest);
        let listed = name_order(rest);
        assert(!listed.contains(x)) by {
            if listed.contains(x) {
                assert(listed.to_set().contains(x));
            }
        }
        lemma_with_name(listed, x);
        assert(rest.insert(x) =~= set);
        assert(lists(with_name(listed, x), set));
    }
}

/// An ascending listing of a set is `name_order` of it.
pub proof fn lemma_name_order(names: Seq<Seq<char>>, set: Set<Seq<char>>)
    requires
        lists(names, set),
    ensures
        name_order(set) == names,
{
    lemma_listing_unique(name_order(set), names, set);
}

/// What `name_order` lists: the names of the set, each once.
pub proof fn lemma_name_order_holds(set: Set<Seq<char>>)
    requires
        set.finite(),
    ensures
        ascending(name_order(set)),
        forall|x: Seq<char>| name_order(set).contains(x) <==> set.contains(x),
{
    lemma_listing_exists(set);
    let names = name_order(set);
    assert forall|x: Seq<char>| names.contains(x) <==> set.contains(x) by {
        assert(names.to_set().contains(x) <==> names.contains(x));
    }
}

} // verus!
