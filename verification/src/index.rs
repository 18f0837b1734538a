//! A map from names to positions, kept in hash buckets so that lookups do
//! not scan every name.

use vstd::prelude::*;
use std::collections::HashMap;
use crate::text::chars_of;

verus! {

broadcast use {vstd::string::group_string_axioms, vstd::std_specs::hash::group_hash_axioms};

pub const HASH_SEED: u64 = 0xcbf29ce484222325;

pub const HASH_FACTOR: u64 = 0x100000001b3;

/// One step of the FNV-1a hash over the code point of `c`.
pub open spec fn hash_step(h: u64, c: char) -> u64 {
    (((h ^ (c as u32 as u64)) as nat * HASH_FACTOR as nat) % 0x1_0000_0000_0000_0000nat) as u64
}

/// The hash of the first `n` characters of `s`.
pub open spec fn name_hash_upto(s: Seq<char>, n: int) -> u64
    decreases n,
{
    if n <= 0 || n > s.len() {
        HASH_SEED
    } else {
        hash_step(name_hash_upto(s, n - 1), s[n - 1])
    }
}

/// The bucket of a name.
pub open spec fn name_hash(s: Seq<char>) -> u64 {
    name_hash_upto(s, s.len() as int)
}

fn hash_of(s: &str) -> (h: u64)
    ensures
        h == name_hash(s@),
{
    let v = chars_of(s);
    let mut h: u64 = HASH_SEED;
    let mut i: usize = 0;
    while i < v.len()
        invariant
            v@ == s@,
            i <= v.len(),
            h == name_hash_upto(v@, i as int),
        decreases v.len() - i,
    {
        h = (h ^ (v[i] as u32 as u64)).wrapping_mul(HASH_FACTOR);
        i = i + 1;
    }
    h
}

/// Every name in bucket `b` hashes to `h` and is mapped by `m` to the
/// position stored with it, and no name occurs twice.
spec fn bucket_ok(b: Seq<(String, usize)>, h: u64, m: Map<Seq<char>, usize>) -> bool {
    &&& forall|i: int|
        0 <= i < b.len() ==> name_hash(#[trigger] b[i].0@) == h && m.contains_key(b[i].0@)
            && m[b[i].0@] == b[i].1
    &&& forall|i: int, j: int| 0 <= i < j < b.len() ==> #[trigger] b[i].0@ != #[trigger] b[j].0@
}

spec fn in_bucket(b: Seq<(String, usize)>, k: Seq<char>) -> bool {
    exists|i: int| 0 <= i < b.len() && #[trigger] b[i].0@ == k
}

fn position_in(b: &Vec<(String, usize)>, n: &String) -> (r: Option<usize>)
    ensures
        r matches Some(i) ==> i < b.len() && b@[i as int].0@ == n@,
        r is None ==> forall|j: int| 0 <= j < b.len() ==> #[trigger] b@[j].0@ != n@,
{
    let mut i: usize = 0;
    while i < b.len()
        invariant
            i <= b.len(),
            forall|j: int| 0 <= j < i ==> #[trigger] b@[j].0@ != n@,
        decreases b.len() - i,
    {
        if b[i].0 == *n {
            return Some(i);
        }
        i = i + 1;
    }
    None
}

/// Names mapped to positions. vstd specifies `HashMap` only for keys whose
/// hashing it models (integers, `bool`), and `String` is not among them, so
/// each name is kept in the bucket of its 64-bit FNV-1a hash.
pub struct NameMap {
    buckets: HashMap<u64, Vec<(String, usize)>>,
    entries: Ghost<Map<Seq<char>, usize>>,
}

impl View for NameMap {
    type V = Map<Seq<char>, usize>;

    closed spec fn view(&self) -> Map<Seq<char>, usize> {
        self.entries@
    }
}

impl NameMap {
    /// The buckets hold exactly the map.
    pub closed spec fn wf(&self) -> bool {
        &&& forall|h: u64| #[trigger]
            self.buckets@.contains_key(h) ==> bucket_ok(self.buckets@[h]@, h, self.entries@)
        &&& forall|k: Seq<char>| #[trigger]
            self.entries@.contains_key(k) ==> self.buckets@.contains_key(name_hash(k))
                && in_bucket(self.buckets@[name_hash(k)]@, k)
    }

    pub fn new() -> (r: Self)
        ensures
            r.wf(),
            r@ == Map::<Seq<char>, usize>::empty(),
    {
        NameMap { buckets: HashMap::new(), entries: Ghost(Map::empty()) }
    }

    /// The position stored for `name`.
    pub fn get(&self, name: &str) -> (r: Option<usize>)
        requires
            self.wf(),
        ensures
            match r {
                Some(v) => self@.contains_key(name@) && self@[name@] == v,
                None => !self@.contains_key(name@),
            },
    {
        let h = hash_of(name);
        match self.buckets.get(&h) {
            None => {
                proof {
                    if self.entries@.contains_key(name@) {
                        assert(self.buckets@.contains_key(name_hash(name@)));
                    }
                }
                None
            },
            Some(b) => {
                assert(bucket_ok(self.buckets@[h]@, h, self.entries@));
                let n = String::from_str(name);
                let mut i: usize = 0;
                while i < b.len()
                    invariant
                        n@ == name@,
                        h == name_hash(name@),
                        self.buckets@.contains_key(h),
                        b@ == self.buckets@[h]@,
                        bucket_ok(b@, h, self.entries@),
                        i <= b.len(),
                        forall|j: int| 0 <= j < i ==> #[trigger] b@[j].0@ != name@,
                    decreases b.len() - i,
                {
                    if b[i].0 == n {
                        assert(b@[i as int].0@ == name@);
                        return Some(b[i].1);
                    }
                    i = i + 1;
                }
                proof {
                    if self.entries@.contains_key(name@) {
                        let j = choose|j: int| 0 <= j < b@.len() && #[trigger] b@[j].0@ == name@;
                    }
                }
                None
            },
        }
    }

    /// Map `name` to `value`, replacing what it was mapped to.
    pub fn set(&mut self, name: &str, value: usize)
        requires
            old(self).wf(),
        ensures
            final(self).wf(),
            final(self)@ == old(self)@.insert(name@, value),
    {
        let h = hash_of(name);
        let ghost old_buckets = self.buckets@;
        let ghost old_map = self.entries@;
        let ghost new_map = old_map.insert(name@, value);
        let mut b: Vec<(String, usize)> = match self.buckets.remove(&h) {
            Some(b) => b,
            None => Vec::new(),
        };
        let ghost old_b = b@;
        assert(old_buckets.contains_key(h) ==> old_b == old_buckets[h]@);
        assert(!old_buckets.contains_key(h) ==> old_b == Seq::<(String, usize)>::empty());
        assert(bucket_ok(old_b, h, old_map)) by {
            if old_buckets.contains_key(h) {
                assert(bucket_ok(old_buckets[h]@, h, old_map));
            }
        }
        let n = String::from_str(name);
        let pos = position_in(&b, &n);
        let found = pos.is_some();
        let i: usize = match pos {
            Some(k) => k,
            None => b.len(),
        };
        if found {
            b.set(i, (n, value));
        } else {
            b.push((n, value));
        }
        let ghost new_b = b@;
        proof {
            // the new bucket
            assert forall|j: int| 0 <= j < new_b.len() implies name_hash(#[trigger] new_b[j].0@)
                == h && new_map.contains_key(new_b[j].0@) && new_map[new_b[j].0@] == new_b[j].1 by {
                if j < old_b.len() && !(found && j == i) {
                    assert(new_b[j] == old_b[j]);
                    assert(old_b[j].0@ != name@) by {
                        if found {
                            assert(old_b[i as int].0@ == name@);
                        }
                    }
                }
            }
            assert forall|a: int, c: int| 0 <= a < c < new_b.len() implies #[trigger] new_b[a].0@
                != #[trigger] new_b[c].0@ by {
                if found {
                    assert(old_b[i as int].0@ == name@);
                    if a != i {
                        assert(new_b[a] == old_b[a]);
                    }
                    if c != i {
                        assert(new_b[c] == old_b[c]);
                    }
                } else {
                    assert(new_b[a] == old_b[a]);
                    if c < old_b.len() {
                        assert(new_b[c] == old_b[c]);
                    }
                }
            }
            assert(bucket_ok(new_b, h, new_map));
        }
        self.buckets.insert(h, b);
        self.entries = Ghost(new_map);
        proof {
            assert forall|g: u64| #[trigger] self.buckets@.contains_key(g) implies bucket_ok(
                self.buckets@[g]@,
                g,
                self.entries@,
            ) by {
                if g != h {
                    assert(old_buckets.contains_key(g));
                    let ob = old_buckets[g]@;
                    assert(bucket_ok(ob, g, old_map));
                    assert(self.buckets@[g]@ == ob);
                    assert forall|j: int| 0 <= j < ob.len() implies name_hash(#[trigger] ob[j].0@)
                        == g && new_map.contains_key(ob[j].0@) && new_map[ob[j].0@] == ob[j].1 by {
                        assert(ob[j].0@ != name@);
                    }
                }
            }
            assert forall|k: Seq<char>| #[trigger]
                self.entries@.contains_key(k) implies self.buckets@.contains_key(name_hash(k))
                && in_bucket(self.buckets@[name_hash(k)]@, k) by {
                if k == name@ {
                    if found {
                        assert(new_b[i as int].0@ == k);
                    } else {
                        assert(new_b[new_b.len() - 1].0@ == k);
                    }
                } else {
                    assert(old_map.contains_key(k));
                    let g = name_hash(k);
                    assert(old_buckets.contains_key(g) && in_bucket(old_buckets[g]@, k));
                    let j = choose|j: int|
                        0 <= j < old_buckets[g]@.len() && #[trigger] old_buckets[g]@[j].0@ == k;
                    if g == h {
                        assert(old_b == old_buckets[g]@);
                        assert(new_b[j].0@ == k) by {
                            if found && j == i {
                                assert(old_b[i as int].0@ == name@);
                            } else {
                                assert(new_b[j] == old_b[j]);
                            }
                        }
                    } else {
                        assert(self.buckets@[g]@ == old_buckets[g]@);
                    }
                }
            }
        }
    }
}

} // verus!
