use vstd::prelude::*;

verus! {

/// Appends `c` to `v` unless `v` already holds it; tells whether it did.
pub fn insert_char(v: &mut Vec<char>, c: char) -> (added: bool)
    ensures
        added == !old(v)@.contains(c),
        final(v)@ == if added { old(v)@.push(c) } else { old(v)@ },
        old(v)@.no_duplicates() ==> final(v)@.no_duplicates(),
        final(v)@.to_set() == old(v)@.to_set().insert(c),
{
    if contains_char(v, c) {
        assert(v@.to_set() =~= v@.to_set().insert(c));
        false
    } else {
        let ghost v0 = v@;
        v.push(c);
        proof {
            assert forall|j: int, k: int| 0 <= j < k < v@.len() && v0.no_duplicates() implies v@[j] != v@[k] by {
                if k == v0.len() {
                    assert(v0.contains(v0[j]));
                }
            }
            assert forall|x: char| v@.to_set().contains(x) <==> v0.to_set().insert(c).contains(x) by {
                if v0.contains(x) {
                    let q = choose|q: int| 0 <= q < v0.len() && v0[q] == x;
                    assert(v@[q] == x);
                }
                if x == c {
                    assert(v@[v0.len() as int] == c);
                }
                if v@.contains(x) && x != c {
                    let q = choose|q: int| 0 <= q < v@.len() && v@[q] == x;
                    assert(v0[q] == x);
                }
            }
            assert(v@.to_set() =~= v0.to_set().insert(c));
        }
        true
    }
}

/// Whether `v` holds `c`.
pub fn contains_char(v: &Vec<char>, c: char) -> (r: bool)
    ensures
        r == v@.contains(c),
{
    let mut i: usize = 0;
    while i < v.len()
        invariant
            i <= v@.len(),
            forall|j: int| 0 <= j < i ==> v@[j] != c,
        decreases v.len() - i,
    {
        if v[i] == c {
            return true;
        }
        i = i + 1;
    }
    false
}

/// A copy of `v`.
pub fn copy_chars(v: &Vec<char>) -> (r: Vec<char>)
    ensures
        r@ == v@,
{
    let mut r: Vec<char> = Vec::new();
    let mut i: usize = 0;
    while i < v.len()
        invariant
            i <= v@.len(),
            r@ == v@.subrange(0, i as int),
        decreases v.len() - i,
    {
        r.push(v[i]);
        assert(v@.subrange(0, i + 1) =~= v@.subrange(0, i as int).push(v@[i as int]));
        i = i + 1;
    }
    assert(v@.subrange(0, v@.len() as int) =~= v@);
    r
}

/// `s` without `skip`, where there is one.
pub open spec fn without(s: Set<char>, skip: Option<char>) -> Set<char> {
    match skip {
        Some(c) => s.remove(c),
        None => s,
    }
}

/// Adds to `acc` each character of `src` but `skip`, once; tells whether
/// `acc` grew.
pub fn add_all_except(acc: &mut Vec<char>, src: &Vec<char>, skip: Option<char>) -> (grew: bool)
    requires
        old(acc)@.no_duplicates(),
    ensures
        final(acc)@.no_duplicates(),
        final(acc)@.to_set() == old(acc)@.to_set().union(without(src@.to_set(), skip)),
        final(acc)@.len() >= old(acc)@.len(),
        final(acc)@.subrange(0, old(acc)@.len() as int) == old(acc)@,
        !grew ==> final(acc)@ == old(acc)@,
        grew ==> final(acc)@.len() > old(acc)@.len(),
{
    let ghost a0 = acc@;
    let mut grew = false;
    let mut i: usize = 0;
    while i < src.len()
        invariant
            i <= src@.len(),
            acc@.no_duplicates(),
            acc@.to_set() == a0.to_set().union(without(src@.subrange(0, i as int).to_set(), skip)),
            acc@.len() >= a0.len(),
            acc@.subrange(0, a0.len() as int) == a0,
            !grew ==> acc@ == a0,
            grew ==> acc@.len() > a0.len(),
        decreases src.len() - i,
    {
        let c = src[i];
        let ghost before = acc@;
        let keep = match skip {
            Some(d) => c != d,
            None => true,
        };
        if keep {
            if insert_char(acc, c) {
                grew = true;
            }
        }
        proof {
            assert(src@.subrange(0, i + 1) =~= src@.subrange(0, i as int).push(c));
            if acc@ != before {
                assert(acc@ == before.push(c));
                assert(acc@.subrange(0, a0.len() as int) =~= before.subrange(0, a0.len() as int));
                assert forall|j: int, k: int| 0 <= j < k < acc@.len() implies acc@[j] != acc@[k] by {
                    if k == before.len() {
                        assert(before.contains(before[j]));
                    }
                }
            }
            assert(acc@.to_set() =~= a0.to_set().union(
                without(src@.subrange(0, i + 1).to_set(), skip),
            )) by {
                assert forall|x: char| acc@.to_set().contains(x) implies a0.to_set().union(
                    without(src@.subrange(0, i + 1).to_set(), skip),
                ).contains(x) by {
                    let sub = src@.subrange(0, i + 1);
                    let sub0 = src@.subrange(0, i as int);
                    if x != c || acc@ == before {
                        if acc@ != before {
                            let p = choose|p: int| 0 <= p < acc@.len() && #[trigger] acc@[p] == x;
                            assert(before[p] == x);
                        }
                        assert(before.to_set().contains(x));
                        if !a0.contains(x) {
                            assert(sub0.to_set().contains(x));
                            let q = choose|q: int| 0 <= q < sub0.len() && #[trigger] sub0[q] == x;
                            assert(sub[q] == x);
                        }
                    } else {
                        assert(sub[i as int] == c);
                    }
                }
                assert forall|x: char| a0.to_set().union(
                    without(src@.subrange(0, i + 1).to_set(), skip),
                ).contains(x) implies acc@.to_set().contains(x) by {
                    if a0.contains(x) {
                        assert(before.to_set().contains(x));
                        assert(before.contains(x));
                        if acc@ != before {
                            let q = choose|q: int| 0 <= q < before.len() && before[q] == x;
                            assert(acc@[q] == x);
                        }
                    } else if x == c {
                        if acc@ == before {
                            assert(before.contains(c));
                        } else {
                            assert(acc@[before.len() as int] == c);
                        }
                    } else {
                        let sub = src@.subrange(0, i + 1);
                        let q = choose|q: int| 0 <= q < sub.len() && #[trigger] sub[q] == x;
                        assert(src@.subrange(0, i as int)[q] == x);
                        assert(before.to_set().contains(x));
                        if acc@ != before {
                            let p = choose|p: int| 0 <= p < before.len() && before[p] == x;
                            assert(acc@[p] == x);
                        }
                    }
                }
            }
        }
        i = i + 1;
    }
    assert(src@.subrange(0, src@.len() as int) =~= src@);
    grew
}

} // verus!

verus! {

/// A set of characters for each of a list of state names.
pub struct CharSets {
    names: Vec<String>,
    sets: Vec<Vec<char>>,
}

impl CharSets {
    /// The names, in order.
    pub closed spec fn names(&self) -> Seq<Seq<char>> {
        self.names@.map_values(|s: String| s@)
    }

    /// The set of each name, by position.
    pub closed spec fn sets(&self) -> Seq<Set<char>> {
        self.sets@.map_values(|v: Vec<char>| v@.to_set())
    }

    pub closed spec fn wf(&self) -> bool {
        &&& self.names@.len() == self.sets@.len()
        &&& forall|i: int| 0 <= i < self.sets@.len() ==> (#[trigger] self.sets@[i])@.no_duplicates()
    }

    pub(crate) fn from_parts(names: Vec<String>, sets: Vec<Vec<char>>) -> (r: CharSets)
        requires
            names@.len() == sets@.len(),
            forall|i: int| 0 <= i < sets@.len() ==> (#[trigger] sets@[i])@.no_duplicates(),
        ensures
            r.wf(),
            r.names() == names@.map_values(|s: String| s@),
            r.sets() == sets@.map_values(|v: Vec<char>| v@.to_set()),
    {
        CharSets { names, sets }
    }

    /// The number of names.
    pub fn len(&self) -> (n: usize)
        requires
            self.wf(),
        ensures
            n == self.names().len(),
    {
        self.names.len()
    }

    /// The name at position `i`.
    pub fn name(&self, i: usize) -> (r: &String)
        requires
            self.wf(),
            i < self.names().len(),
        ensures
            r@ == self.names()[i as int],
    {
        &self.names[i]
    }

    /// The characters of the set at position `i`, each once.
    pub fn chars(&self, i: usize) -> (r: &Vec<char>)
        requires
            self.wf(),
            i < self.names().len(),
        ensures
            r@.no_duplicates(),
            r@.to_set() == self.sets()[i as int],
    {
        &self.sets[i]
    }

    /// The characters of the set of the first entry called `name`, each once.
    pub fn get(&self, name: &str) -> (r: Option<Vec<char>>)
        requires
            self.wf(),
        ensures
            match r {
                Some(v) => exists|i: int|
                    0 <= i < self.names().len() && self.names()[i] == name@ && v@.to_set() == self.sets()[i]
                        && v@.no_duplicates() && forall|j: int| 0 <= j < i ==> self.names()[j] != name@,
                None => forall|i: int| 0 <= i < self.names().len() ==> self.names()[i] != name@,
            },
    {
        let key = String::from_str(name);
        let mut i: usize = 0;
        while i < self.names.len()
            invariant
                self.wf(),
                key@ == name@,
                i <= self.names@.len(),
                forall|j: int| 0 <= j < i ==> self.names()[j] != name@,
            decreases self.names.len() - i,
        {
            if self.names[i].eq(&key) {
                let v = copy_chars(&self.sets[i]);
                assert(self.names()[i as int] == name@);
                return Some(v);
            }
            i = i + 1;
        }
        None
    }

    /// Whether the first entry called `name` holds `c`.
    pub fn contains(&self, name: &str, c: char) -> (r: bool)
        requires
            self.wf(),
        ensures
            r == exists|i: int|
                0 <= i < self.names().len() && self.names()[i] == name@ && self.sets()[i].contains(c)
                    && forall|j: int| 0 <= j < i ==> self.names()[j] != name@,
    {
        let key = String::from_str(name);
        let mut i: usize = 0;
        while i < self.names.len()
            invariant
                self.wf(),
                key@ == name@,
                i <= self.names@.len(),
                forall|j: int| 0 <= j < i ==> self.names()[j] != name@,
            decreases self.names.len() - i,
        {
            if self.names[i].eq(&key) {
                let r = contains_char(&self.sets[i], c);
                assert(self.sets()[i as int] == self.sets@[i as int]@.to_set());
                assert(self.names()[i as int] == name@);
                proof {
                    if !r {
                        assert forall|i2: int|
                            0 <= i2 < self.names().len() && self.names()[i2] == name@ && self.sets()[i2].contains(c)
                                implies !(forall|j: int| 0 <= j < i2 ==> self.names()[j] != name@) by {
                            assert(i2 > i);
                            assert(self.names()[i as int] == name@);
                        }
                    }
                }
                return r;
            }
            i = i + 1;
        }
        false
    }
}

} // verus!
