//! Sets of names, in the order of their bytes.
use vstd::prelude::*;
use vstd::utf8::{encode_utf8, encode_utf8_decode_utf8};

verus! {

pub open spec fn texts(names: Seq<String>) -> Seq<Seq<char>> {
    names.map_values(|name: String| name@)
}

// ---------------------------------------------------------------------------
// The order of names
// ---------------------------------------------------------------------------

/// `a` comes before `b`: at the first byte in which they differ, or because it
/// ends there.
pub open spec fn bytes_before(a: Seq<u8>, b: Seq<u8>) -> bool
    decreases a.len(),
{
    if b.len() == 0 {
        false
    } else if a.len() == 0 {
        true
    } else if a[0] != b[0] {
        a[0] < b[0]
    } else {
        bytes_before(a.drop_first(), b.drop_first())
    }
}

/// Names are ordered by the bytes of their UTF-8 encoding.
pub open spec fn name_before(a: Seq<char>, b: Seq<char>) -> bool {
    bytes_before(encode_utf8(a), encode_utf8(b))
}

/// The order of byte strings is irreflexive, transitive and total.
pub proof fn law_bytes_before(a: Seq<u8>, b: Seq<u8>, c: Seq<u8>)
    ensures
        !bytes_before(a, a),
        bytes_before(a, b) && bytes_before(b, c) ==> bytes_before(a, c),
        a == b || bytes_before(a, b) || bytes_before(b, a),
        !(bytes_before(a, b) && bytes_before(b, a)),
    decreases a.len(),
{
    if a.len() > 0 {
        law_bytes_before(a.drop_first(), a.drop_first(), Seq::empty());
    }
    if a.len() > 0 && b.len() > 0 {
        if c.len() > 0 {
            law_bytes_before(a.drop_first(), b.drop_first(), c.drop_first());
        } else {
            law_bytes_before(a.drop_first(), b.drop_first(), c);
        }
        if a[0] == b[0] && a.drop_first() == b.drop_first() {
            assert(a =~= seq![a[0]] + a.drop_first());
            assert(b =~= seq![b[0]] + b.drop_first());
        }
    } else if a.len() == 0 && b.len() == 0 {
        assert(a =~= b);
    }
}

fn before(a: &String, b: &String) -> (yes: bool)
    ensures
        yes == name_before(a@, b@),
{
    let x = a.as_str().as_bytes();
    let y = b.as_str().as_bytes();
    let mut i: usize = 0;
    assert(x@.skip(0) =~= x@);
    assert(y@.skip(0) =~= y@);
    while i < x.len() && i < y.len()
        invariant
            i <= x@.len(),
            i <= y@.len(),
            x@ == encode_utf8(a@),
            y@ == encode_utf8(b@),
            bytes_before(x@, y@) == bytes_before(x@.skip(i as int), y@.skip(i as int)),
        decreases x@.len() - i,
    {
        assert(x@.skip(i as int).drop_first() =~= x@.skip(i + 1));
        assert(y@.skip(i as int).drop_first() =~= y@.skip(i + 1));
        assert(x@.skip(i as int)[0] == x@[i as int]);
        assert(y@.skip(i as int)[0] == y@[i as int]);
        if x[i] != y[i] {
            return x[i] < y[i];
        }
        i = i + 1;
    }
    i < y.len()
}

// ---------------------------------------------------------------------------
// Sets of names
// ---------------------------------------------------------------------------

/// A set of names.
#[derive(Debug)]
pub struct NameSet {
    names: Vec<String>,
}

impl View for NameSet {
    type V = Set<Seq<char>>;

    closed spec fn view(&self) -> Set<Seq<char>> {
        texts(self.names@).to_set()
    }
}

/// `name` is in `set`, and none in `set` comes before it.
pub open spec fn is_first(set: Set<Seq<char>>, name: Seq<char>) -> bool {
    set.contains(name) && forall|other: Seq<char>| #[trigger]
        set.contains(other) ==> !name_before(other, name)
}

impl NameSet {
    /// No name is there twice.
    pub closed spec fn wf(self) -> bool {
        texts(self.names@).no_duplicates()
    }

    pub fn new() -> (set: NameSet)
        ensures
            set.wf(),
            set@ == Set::<Seq<char>>::empty(),
    {
        let set = NameSet { names: Vec::new() };
        assert(set@ =~= Set::<Seq<char>>::empty());
        set
    }

    /// The set of the names in a list.
    pub fn from_names(names: &[String]) -> (set: NameSet)
        ensures
            set.wf(),
            set@ == texts(names@).to_set(),
    {
        let mut set = NameSet::new();
        let mut i: usize = 0;
        assert(texts(names@).take(0).to_set() =~= Set::<Seq<char>>::empty());
        while i < names.len()
            invariant
                i <= names@.len(),
                set.wf(),
                set@ == texts(names@).take(i as int).to_set(),
            decreases names@.len() - i,
        {
            set.insert(names[i].clone());
            proof {
                let all = texts(names@);
                assert(all.take(i + 1) =~= all.take(i as int).push(names@[i as int]@));
                all.take(i as int).lemma_push_to_set_commute(names@[i as int]@);
            }
            i = i + 1;
        }
        assert(texts(names@).take(i as int) =~= texts(names@));
        set
    }

    fn position(&self, name: &String) -> (position: Option<usize>)
        ensures
            match position {
                Some(i) => i < self.names@.len() && self.names@[i as int]@ == name@ && self@.contains(
                    name@,
                ),
                None => !self@.contains(name@),
            },
    {
        let mut i: usize = 0;
        while i < self.names.len()
            invariant
                i <= self.names@.len(),
                forall|k: int| 0 <= k < i ==> (#[trigger] self.names@[k])@ != name@,
            decreases self.names@.len() - i,
        {
            if self.names[i] == *name {
                assert(texts(self.names@)[i as int] == name@);
                return Some(i);
            }
            i = i + 1;
        }
        assert forall|k: int| 0 <= k < texts(self.names@).len() implies texts(self.names@)[k]
            != name@ by {
            assert(self.names@[k]@ != name@);
        }
        None
    }

    pub fn contains(&self, name: &String) -> (yes: bool)
        ensures
            yes == self@.contains(name@),
    {
        self.position(name).is_some()
    }

    /// Adds a name. Whether it was not there before.
    pub fn insert(&mut self, name: String) -> (added: bool)
        requires
            old(self).wf(),
        ensures
            final(self).wf(),
            final(self)@ == old(self)@.insert(name@),
            added == !old(self)@.contains(name@),
    {
        if self.contains(&name) {
            assert(self@ =~= self@.insert(name@));
            return false;
        }
        let ghost before = texts(self.names@);
        self.names.push(name);
        proof {
            assert(texts(self.names@) =~= before.push(name@));
            before.lemma_push_to_set_commute(name@);
            assert forall|i: int, j: int|
                0 <= i < before.len() + 1 && 0 <= j < before.len() + 1 && i != j implies before.push(
                name@,
            )[i] != before.push(name@)[j] by {
                if i < before.len() {
                    assert(before.contains(before[i]));
                }
                if j < before.len() {
                    assert(before.contains(before[j]));
                }
            }
        }
        true
    }

    /// Takes a name out. Whether it was there.
    pub fn remove(&mut self, name: &String) -> (removed: bool)
        requires
            old(self).wf(),
        ensures
            final(self).wf(),
            final(self)@ == old(self)@.remove(name@),
            removed == old(self)@.contains(name@),
    {
        match self.position(name) {
            Some(i) => {
                let ghost before = texts(self.names@);
                assert(before[i as int] == name@);
                self.names.remove(i);
                proof {
                    let after = texts(self.names@);
                    assert(after =~= before.remove(i as int));
                    assert forall|text: Seq<char>| #[trigger]
                        after.to_set().contains(text) <==> before.to_set().remove(name@).contains(
                            text,
                        ) by {
                        if after.contains(text) {
                            let k = choose|k: int| 0 <= k < after.len() && after[k] == text;
                            let j = if k < i {
                                k
                            } else {
                                k + 1
                            };
                            assert(before[j] == text);
                        }
                        if before.contains(text) && text != name@ {
                            let k = choose|k: int| 0 <= k < before.len() && before[k] == text;
                            let j = if k < i {
                                k
                            } else {
                                k - 1
                            };
                            assert(after[j] == text);
                        }
                    }
                    assert(after.to_set() =~= before.to_set().remove(name@));
                }
                true
            },
            None => {
                assert(self@ =~= self@.remove(name@));
                false
            },
        }
    }

    /// The first of the names.
    pub fn first(&self) -> (name: Option<String>)
        ensures
            match name {
                Some(name) => is_first(self@, name@),
                None => self@ == Set::<Seq<char>>::empty(),
            },
    {
        if self.names.len() == 0 {
            assert(self@ =~= Set::<Seq<char>>::empty());
            return None;
        }
        let mut best: usize = 0;
        let mut i: usize = 1;
        proof {
            law_bytes_before(encode_utf8(self.names@[0]@), seq![], seq![]);
        }
        while i < self.names.len()
            invariant
                best < i <= self.names@.len(),
                forall|k: int|
                    0 <= k < i ==> !name_before(
                        (#[trigger] self.names@[k])@,
                        self.names@[best as int]@,
                    ),
            decreases self.names@.len() - i,
        {
            if before(&self.names[i], &self.names[best]) {
                proof {
                    let new = encode_utf8(self.names@[i as int]@);
                    let old_best = encode_utf8(self.names@[best as int]@);
                    assert forall|k: int| 0 <= k < i + 1 implies !name_before(
                        (#[trigger] self.names@[k])@,
                        self.names@[i as int]@,
                    ) by {
                        let other = encode_utf8(self.names@[k]@);
                        law_bytes_before(other, new, old_best);
                    }
                }
                best = i;
            }
            i = i + 1;
        }
        proof {
            assert(texts(self.names@)[best as int] == self.names@[best as int]@);
            assert forall|other: Seq<char>| #[trigger] self@.contains(other) implies !name_before(
                other,
                self.names@[best as int]@,
            ) by {
                let k = choose|k: int|
                    0 <= k < texts(self.names@).len() && texts(self.names@)[k] == other;
                assert(self.names@[k]@ == other);
            }
        }
        Some(self.names[best].clone())
    }
}

/// One byte string comes before another where it is a proper beginning of it, or
/// has the lesser byte at the first place in which they differ.
pub proof fn law_order_of_bytes(a: Seq<u8>, b: Seq<u8>)
    ensures
        bytes_before(a, b) <==> exists|n: int|
            0 <= n <= a.len() && n < b.len() && (#[trigger] a.take(n)) == b.take(n) && (n == a.len()
                || a[n] < b[n]),
    decreases a.len(),
{
    assert(a.take(0) =~= b.take(0));
    if a.len() > 0 && b.len() > 0 && a[0] == b[0] {
        let (x, y) = (a.drop_first(), b.drop_first());
        law_order_of_bytes(x, y);
        if bytes_before(a, b) {
            let n = choose|n: int|
                0 <= n <= x.len() && n < y.len() && (#[trigger] x.take(n)) == y.take(n) && (n
                    == x.len() || x[n] < y[n]);
            assert(a.take(n + 1) =~= seq![a[0]] + x.take(n));
            assert(b.take(n + 1) =~= seq![b[0]] + y.take(n));
        }
        if exists|n: int|
            0 <= n <= a.len() && n < b.len() && (#[trigger] a.take(n)) == b.take(n) && (n == a.len()
                || a[n] < b[n]) {
            let n = choose|n: int|
                0 <= n <= a.len() && n < b.len() && (#[trigger] a.take(n)) == b.take(n) && (n
                    == a.len() || a[n] < b[n]);
            assert(n > 0);
            assert(x.take(n - 1) =~= a.take(n).drop_first());
            assert(y.take(n - 1) =~= b.take(n).drop_first());
        }
    } else if a.len() > 0 && b.len() > 0 {
        if exists|n: int|
            0 <= n <= a.len() && n < b.len() && (#[trigger] a.take(n)) == b.take(n) && (n == a.len()
                || a[n] < b[n]) {
            let n = choose|n: int|
                0 <= n <= a.len() && n < b.len() && (#[trigger] a.take(n)) == b.take(n) && (n
                    == a.len() || a[n] < b[n]);
            if n > 0 {
                assert(a.take(n)[0] == b.take(n)[0]);
            }
        }
    }
}

/// The first of a set of names is one of them, and no other comes before it by
/// the bytes of their UTF-8 encodings.
pub proof fn law_first_name(set: Set<Seq<char>>, name: Seq<char>, other: Seq<char>)
    requires
        is_first(set, name),
    ensures
        set.contains(name),
        set.contains(other) && other != name ==> !bytes_before(
            encode_utf8(other),
            encode_utf8(name),
        ) && bytes_before(encode_utf8(name), encode_utf8(other)),
{
    if set.contains(other) && other != name {
        encode_utf8_decode_utf8(name);
        encode_utf8_decode_utf8(other);
        law_bytes_before(encode_utf8(name), encode_utf8(other), seq![]);
    }
}

} // verus!
