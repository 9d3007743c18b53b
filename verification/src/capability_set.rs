//! Sets of capability names.
use vstd::prelude::*;

use crate::ascii;

verus! {

/// The order of names: by the first character in which they differ, a name
/// before those that continue it.
pub open spec fn before(a: Seq<char>, b: Seq<char>) -> bool
    decreases a.len(),
{
    if b.len() == 0 {
        false
    } else if a.len() == 0 {
        true
    } else if a[0] == b[0] {
        before(a.skip(1), b.skip(1))
    } else {
        (a[0] as int) < (b[0] as int)
    }
}

pub open spec fn ordered(v: Seq<Seq<char>>) -> bool {
    forall|i: int, j: int| 0 <= i < j < v.len() ==> before(#[trigger] v[i], #[trigger] v[j])
}

proof fn lemma_before_irreflexive(a: Seq<char>)
    ensures
        !before(a, a),
    decreases a.len(),
{
    if a.len() > 0 {
        lemma_before_irreflexive(a.skip(1));
    }
}

proof fn lemma_before_total(a: Seq<char>, b: Seq<char>)
    ensures
        a == b || before(a, b) || before(b, a),
    decreases a.len(),
{
    if a.len() == 0 || b.len() == 0 {
        if a.len() == b.len() {
            assert(a =~= b);
        }
    } else if a[0] == b[0] {
        lemma_before_total(a.skip(1), b.skip(1));
        if a.skip(1) == b.skip(1) {
            assert(a =~= seq![a[0]] + a.skip(1));
            assert(b =~= seq![b[0]] + b.skip(1));
        }
    }
}

proof fn lemma_before_transitive(a: Seq<char>, b: Seq<char>, c: Seq<char>)
    requires
        before(a, b),
        before(b, c),
    ensures
        before(a, c),
    decreases a.len(),
{
    if a.len() > 0 && a[0] == b[0] && b[0] == c[0] {
        lemma_before_transitive(a.skip(1), b.skip(1), c.skip(1));
    }
}

/// A set of names, kept in order.
#[derive(Debug, PartialEq, Eq)]
pub struct CapabilitySet {
    names: Vec<String>,
}

impl View for CapabilitySet {
    type V = Set<Seq<char>>;

    closed spec fn view(&self) -> Set<Seq<char>> {
        self.names.deep_view().to_set()
    }
}

fn comes_before(a: &str, b: &str) -> (r: bool)
    ensures
        r == before(a@, b@),
{
    let n: usize = a.unicode_len();
    let m: usize = b.unicode_len();
    let mut i: usize = 0;
    assert(a@.skip(0) =~= a@);
    assert(b@.skip(0) =~= b@);
    while i < n && i < m
        invariant
            n == a@.len(),
            m == b@.len(),
            i <= n,
            i <= m,
            before(a@, b@) == before(a@.skip(i as int), b@.skip(i as int)),
        decreases n - i,
    {
        let x: char = a.get_char(i);
        let y: char = b.get_char(i);
        if x != y {
            return (x as u32) < (y as u32);
        }
        assert(a@.skip(i as int).skip(1) =~= a@.skip(i + 1));
        assert(b@.skip(i as int).skip(1) =~= b@.skip(i + 1));
        i = i + 1;
    }
    i < m
}

impl CapabilitySet {
    #[verifier::type_invariant]
    spec fn in_order(self) -> bool {
        ordered(self.names.deep_view())
    }

    pub fn new() -> (r: Self)
        ensures
            r@ == Set::<Seq<char>>::empty(),
    {
        let names: Vec<String> = Vec::new();
        assert(names.deep_view() =~= seq![]);
        let r = CapabilitySet { names };
        assert(r@ =~= Set::<Seq<char>>::empty());
        r
    }

    pub fn contains(&self, name: &str) -> (r: bool)
        ensures
            r == self@.contains(name@),
    {
        let ghost all = self.names.deep_view();
        let mut i: usize = 0;
        while i < self.names.len()
            invariant
                i <= self.names@.len(),
                all == self.names.deep_view(),
                forall|j: int| 0 <= j < i ==> all[j] != name@,
            decreases self.names@.len() - i,
        {
            assert(all[i as int] == self.names@[i as int]@);
            if ascii::same_text(self.names[i].as_str(), name) {
                return true;
            }
            i = i + 1;
        }
        false
    }

    /// Adds a name, unless the set has it.
    pub fn insert(&mut self, name: String)
        ensures
            final(self)@ == old(self)@.insert(name@),
    {
        proof {
            use_type_invariant(&*self);
        }
        let ghost all = self.names.deep_view();
        let mut names: Vec<String> = Vec::new();
        assert(names.deep_view() =~= seq![]);
        std::mem::swap(&mut names, &mut self.names);
        let mut i: usize = 0;
        while i < names.len() && comes_before(names[i].as_str(), name.as_str())
            invariant
                i <= names@.len(),
                all == names.deep_view(),
                forall|j: int| 0 <= j < i ==> before(#[trigger] all[j], name@),
            decreases names@.len() - i,
        {
            assert(all[i as int] == names@[i as int]@);
            i = i + 1;
        }
        if i < names.len() && ascii::same_text(names[i].as_str(), name.as_str()) {
            proof {
                assert(all[i as int] == name@);
                assert(all.to_set().insert(name@) =~= all.to_set());
            }
            self.names = names;
            return;
        }
        let ghost key = name@;
        names.insert(i, name);
        proof {
            let after = names.deep_view();
            assert(after =~= all.insert(i as int, key));
            if i < all.len() {
                lemma_before_total(all[i as int], key);
            }
            assert forall|j: int, k: int| 0 <= j < k < after.len() implies before(
                #[trigger] after[j],
                #[trigger] after[k],
            ) by {
                if j == i && k > i + 1 {
                    lemma_before_transitive(key, all[i as int], all[k - 1]);
                }
            }
            assert forall|s: Seq<char>| after.contains(s) == all.to_set().insert(key).contains(
                s,
            ) by {
                if all.contains(s) {
                    let j = all.index_of(s);
                    assert(after[if j < i {
                        j
                    } else {
                        j + 1
                    }] == s);
                }
                assert(after[i as int] == key);
                if after.contains(s) && s != key {
                    let j = after.index_of(s);
                    assert(all[if j < i {
                        j
                    } else {
                        j - 1
                    }] == s);
                }
            }
            assert(after.to_set() =~= all.to_set().insert(key));
        }
        self.names = names;
    }

    /// The names in order.
    pub fn names(&self) -> (r: &Vec<String>)
        ensures
            ordered(r.deep_view()),
            r.deep_view().no_duplicates(),
            r.deep_view().to_set() == self@,
    {
        proof {
            use_type_invariant(&*self);
            let all = self.names.deep_view();
            assert forall|i: int, j: int| 0 <= i < all.len() && 0 <= j < all.len() && i != j implies
                all[i] != all[j] by {
                lemma_before_irreflexive(all[i]);
                if i < j {
                    assert(before(all[i], all[j]));
                } else {
                    assert(before(all[j], all[i]));
                }
            }
        }
        &self.names
    }
}

impl Clone for CapabilitySet {
    fn clone(&self) -> (r: Self)
        ensures
            r@ == self@,
    {
        proof {
            use_type_invariant(&*self);
        }
        let names: Vec<String> = self.names.clone();
        assert(names.deep_view() =~= self.names.deep_view());
        CapabilitySet { names }
    }
}

impl From<Vec<String>> for CapabilitySet {
    fn from(names: Vec<String>) -> (r: Self)
        ensures
            r@ == names.deep_view().to_set(),
    {
        let ghost all = names.deep_view();
        let mut r = CapabilitySet::new();
        let mut i: usize = 0;
        assert(all.take(0).to_set() =~= Set::empty());
        while i < names.len()
            invariant
                i <= names@.len(),
                all == names.deep_view(),
                r@ == all.take(i as int).to_set(),
            decreases names@.len() - i,
        {
            r.insert(names[i].clone());
            proof {
                let done = all.take(i as int);
                let more = all.take(i + 1);
                assert(more =~= done.push(all[i as int]));
                assert forall|s: Seq<char>| more.contains(s) == done.to_set().insert(
                    all[i as int],
                ).contains(s) by {
                    if done.contains(s) {
                        assert(more[done.index_of(s)] == s);
                    }
                    assert(more[i as int] == all[i as int]);
                    if more.contains(s) && s != all[i as int] {
                        assert(done[more.index_of(s)] == s);
                    }
                }
                assert(more.to_set() =~= done.to_set().insert(all[i as int]));
            }
            i = i + 1;
        }
        assert(all.take(i as int) =~= all);
        r
    }
}

impl vstd::std_specs::convert::FromSpecImpl<Vec<String>> for CapabilitySet {
    open spec fn obeys_from_spec() -> bool {
        false
    }

    open spec fn from_spec(names: Vec<String>) -> Self {
        arbitrary()
    }
}

} // verus!
