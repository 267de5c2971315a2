//! Compact numbering of file paths.

use vstd::prelude::*;
use vstd::hash_map::StringHashMap;

use crate::path_key::{path_key, path_key_of};

verus! {

/// Maps file paths to compact sequential numbers and back.
///
/// File numbers are 0-based and assigned in registration order. Paths are
/// told apart by their components (`path_key`), so `a/b`, `a//b` and `a/b/`
/// are one path; each number keeps the path as it was first registered.
pub struct FileRegistry {
    name_to_num: StringHashMap<usize>,
    num_to_name: Vec<String>,
}

impl View for FileRegistry {
    type V = Seq<Seq<char>>;

    /// The registered paths, as first given; a path's number is its position.
    closed spec fn view(&self) -> Seq<Seq<char>> {
        self.num_to_name@.map_values(|s: String| s@)
    }
}

/// No two registered paths are the same path.
pub open spec fn distinct_keys(v: Seq<Seq<char>>) -> bool {
    forall|i: int, j: int| 0 <= i < v.len() && 0 <= j < v.len() && i != j ==> path_key(v[i]) != path_key(v[j])
}

/// `path` is the same path as one registered in `v`.
pub open spec fn known(v: Seq<Seq<char>>, path: Seq<char>) -> bool {
    exists|i: int| 0 <= i < v.len() && path_key(v[i]) == path_key(path)
}

/// `new` is the numbering `old` after `path` was registered under `num`: a
/// known path keeps its number, a new one gets the next number.
pub open spec fn registered(old: Seq<Seq<char>>, path: Seq<char>, new: Seq<Seq<char>>, num: usize) -> bool {
    if known(old, path) {
        num < old.len() && path_key(old[num as int]) == path_key(path) && new == old
    } else {
        num == old.len() && new == old.push(path)
    }
}

/// After registering a path, its number leads back to the same path.
pub proof fn law_register_then_get_path(old: Seq<Seq<char>>, path: Seq<char>, new: Seq<Seq<char>>, num: usize)
    requires
        registered(old, path, new, num),
    ensures
        num < new.len(),
        path_key(new[num as int]) == path_key(path),
{
}

/// Registering never renumbers the paths registered before.
pub proof fn law_register_keeps_numbers(old: Seq<Seq<char>>, path: Seq<char>, new: Seq<Seq<char>>, num: usize)
    requires
        registered(old, path, new, num),
    ensures
        old.len() <= new.len() <= old.len() + 1,
        new.take(old.len() as int) == old,
{
    assert(new.take(old.len() as int) =~= old);
}

/// Registering the same path a second time, in any spelling, changes nothing
/// and gives the same number.
pub proof fn law_register_twice(
    v0: Seq<Seq<char>>,
    path: Seq<char>,
    other: Seq<char>,
    v1: Seq<Seq<char>>,
    n1: usize,
    v2: Seq<Seq<char>>,
    n2: usize,
)
    requires
        distinct_keys(v0),
        path_key(other) == path_key(path),
        registered(v0, path, v1, n1),
        registered(v1, other, v2, n2),
    ensures
        v2 == v1,
        n2 == n1,
{
    assert(path_key(v1[n1 as int]) == path_key(other));
    assert(known(v1, other));
    if n2 != n1 {
        if !known(v0, path) {
            if n2 < v0.len() {
                assert(v1[n2 as int] == v0[n2 as int]);
                assert(known(v0, path));
            }
        }
    }
}

impl FileRegistry {
    /// The map and the list describe the same numbering, the map keyed by the
    /// key of each path.
    #[verifier::type_invariant]
    spec fn numbering(self) -> bool {
        &&& forall|i: int|
            0 <= i < self.num_to_name@.len() ==> #[trigger] self.name_to_num@.contains_key(path_key(self.num_to_name@[i]@))
                && self.name_to_num@[path_key(self.num_to_name@[i]@)] == i
        &&& forall|k: Seq<char>|
            #[trigger] self.name_to_num@.contains_key(k) ==> self.name_to_num@[k] < self.num_to_name@.len()
                && path_key(self.num_to_name@[self.name_to_num@[k] as int]@) == k
    }

    /// Creates an empty file registry.
    pub fn new() -> (r: FileRegistry)
        ensures
            r@ == Seq::<Seq<char>>::empty(),
            distinct_keys(r@),
    {
        let r = FileRegistry { name_to_num: StringHashMap::new(), num_to_name: Vec::new() };
        assert(r@ =~= Seq::<Seq<char>>::empty());
        r
    }

    /// Registers a file path and returns its number: the number the same path
    /// already has, or the next free one.
    pub fn register(&mut self, path: String) -> (num: usize)
        ensures
            registered(old(self)@, path@, final(self)@, num),
            distinct_keys(old(self)@),
            distinct_keys(final(self)@),
    {
        proof {
            use_type_invariant(&*self);
            self.lemma_distinct();
        }
        let key = path_key_of(path.as_str());
        match self.name_to_num.get(key.as_str()) {
            Some(num) => {
                assert(path_key(self@[*num as int]) == path_key(path@));
                return *num;
            },
            None => {},
        }
        let num = self.num_to_name.len();
        assert(!known(self@, path@)) by {
            if known(self@, path@) {
                let i = choose|i: int| 0 <= i < self@.len() && path_key(self@[i]) == path_key(path@);
                assert(self.name_to_num@.contains_key(path_key(self.num_to_name@[i]@)));
            }
        }
        let mut taken = FileRegistry::new();
        std::mem::swap(self, &mut taken);
        let FileRegistry { mut name_to_num, mut num_to_name } = taken;
        let ghost old_names = num_to_name@;
        let ghost old_map = name_to_num@;
        num_to_name.push(path);
        name_to_num.insert(key, num);
        assert forall|i: int| 0 <= i < num_to_name@.len() implies #[trigger] name_to_num@.contains_key(
            path_key(num_to_name@[i]@),
        ) && name_to_num@[path_key(num_to_name@[i]@)] == i by {
            if i < old_names.len() {
                assert(num_to_name@[i] == old_names[i]);
                assert(old_map.contains_key(path_key(old_names[i]@)));
            }
        }
        let r = FileRegistry { name_to_num, num_to_name };
        assert(r@ =~= old(self)@.push(r.num_to_name@[num as int]@));
        proof {
            r.lemma_distinct();
        }
        *self = r;
        num
    }

    /// The numbering gives different paths different numbers.
    proof fn lemma_distinct(&self)
        requires
            self.numbering(),
        ensures
            distinct_keys(self@),
    {
        assert forall|i: int, j: int| 0 <= i < self@.len() && 0 <= j < self@.len() && i != j implies path_key(self@[i])
            != path_key(self@[j]) by {
            assert(self.name_to_num@.contains_key(path_key(self.num_to_name@[i]@)));
            assert(self.name_to_num@.contains_key(path_key(self.num_to_name@[j]@)));
        }
    }

    /// The path registered under number `file_num`.
    pub fn get_path(&self, file_num: usize) -> (p: &str)
        requires
            file_num < self@.len(),
        ensures
            p@ == self@[file_num as int],
    {
        self.num_to_name[file_num].as_str()
    }

    /// Number of registered files.
    pub fn len(&self) -> (n: usize)
        ensures
            n == self@.len(),
    {
        self.num_to_name.len()
    }
}

} // verus!
