//! Lists of things that are found by their name.

use vstd::prelude::*;

verus! {

/// Something that has a name.
pub trait Named {
    /// The name.
    spec fn name_view(&self) -> Seq<char>;

    /// The name.
    fn name(&self) -> (r: &String)
        ensures
            r@ == self.name_view(),
    ;
}

/// The names of a list of things.
pub open spec fn names<T: Named>(s: Seq<T>) -> Seq<Seq<char>> {
    s.map_values(|x: T| x.name_view())
}

/// The list without `name`. Meant for lists that hold no name twice.
pub open spec fn without(s: Seq<Seq<char>>, name: Seq<char>) -> Seq<Seq<char>> {
    if s.contains(name) {
        s.remove(s.index_of(name))
    } else {
        s
    }
}

/// The list with `name` moved to its end, or added there.
pub open spec fn refreshed(s: Seq<Seq<char>>, name: Seq<char>) -> Seq<Seq<char>> {
    without(s, name).push(name)
}

/// Taking a name out of a list without duplicates leaves a list without
/// duplicates that lacks just that name.
pub proof fn lemma_without(s: Seq<Seq<char>>, name: Seq<char>)
    requires
        s.no_duplicates(),
    ensures
        without(s, name).no_duplicates(),
        !without(s, name).contains(name),
        forall|other: Seq<char>|
            other != name ==> (#[trigger] without(s, name).contains(other) <==> s.contains(other)),
        refreshed(s, name).no_duplicates(),
{
    let t = without(s, name);
    if s.contains(name) {
        let i = s.index_of(name);
        assert forall|a: int, b: int| 0 <= a < t.len() && 0 <= b < t.len() && a != b implies t[a]
            != t[b] by {
            let a0 = if a < i {
                a
            } else {
                a + 1
            };
            let b0 = if b < i {
                b
            } else {
                b + 1
            };
            assert(t[a] == s[a0]);
            assert(t[b] == s[b0]);
        }
        if t.contains(name) {
            let k = t.index_of(name);
            let k0 = if k < i {
                k
            } else {
                k + 1
            };
            assert(t[k] == s[k0]);
        }
        assert forall|other: Seq<char>| other != name implies (#[trigger] t.contains(other)
            <==> s.contains(other)) by {
            if t.contains(other) {
                let k = t.index_of(other);
                let k0 = if k < i {
                    k
                } else {
                    k + 1
                };
                assert(t[k] == s[k0]);
            }
            if s.contains(other) {
                let k = s.index_of(other);
                let k1 = if k < i {
                    k
                } else {
                    k - 1
                };
                assert(t[k1] == s[k]);
            }
        }
    }
    let r = t.push(name);
    assert forall|a: int, b: int| 0 <= a < r.len() && 0 <= b < r.len() && a != b implies r[a]
        != r[b] by {
        if a < t.len() {
            assert(t.contains(r[a]));
        }
        if b < t.len() {
            assert(t.contains(r[b]));
        }
    }
}

/// Looks for the first thing of the list that has the name `name`.
pub fn find<T: Named>(v: &Vec<T>, name: &String) -> (r: Option<usize>)
    ensures
        match r {
            Some(i) => {
                &&& i < v.len()
                &&& v@[i as int].name_view() == name@
                &&& forall|j: int| 0 <= j < i ==> (#[trigger] v@[j]).name_view() != name@
            },
            None => forall|j: int| 0 <= j < v.len() ==> (#[trigger] v@[j]).name_view() != name@,
        },
{
    let mut i: usize = 0;
    while i < v.len()
        invariant
            i <= v.len(),
            forall|j: int| 0 <= j < i ==> (#[trigger] v@[j]).name_view() != name@,
        decreases v.len() - i,
    {
        if *v[i].name() == *name {
            return Some(i);
        }
        i += 1;
    }
    None
}

/// What [`find`] returns, said of the list of names.
pub proof fn lemma_find<T: Named>(s: Seq<T>, name: Seq<char>, r: Option<usize>)
    requires
        names(s).no_duplicates(),
        match r {
            Some(i) => i < s.len() && s[i as int].name_view() == name,
            None => forall|j: int| 0 <= j < s.len() ==> (#[trigger] s[j]).name_view() != name,
        },
    ensures
        r is Some <==> names(s).contains(name),
        r matches Some(i) ==> names(s).index_of(name) == i,
{
    match r {
        Some(i) => {
            assert(names(s)[i as int] == name);
        },
        None => {
            if names(s).contains(name) {
                let k = names(s).index_of(name);
                assert(s[k].name_view() == name);
            }
        },
    }
}

} // verus!
