use vstd::prelude::*;

use crate::errors::CrfError;

verus! {

/// Interning table: a bidirectional mapping between names (byte strings) and
/// dense integer ids.  Ids are assigned on first occurrence, are never recycled
/// or renumbered, and remain valid for the lifetime of the table.
pub struct Dictionary {
    names: Vec<Vec<u8>>,
}

impl View for Dictionary {
    type V = Seq<Seq<u8>>;

    closed spec fn view(&self) -> Seq<Seq<u8>> {
        self.names@.map_values(|n: Vec<u8>| n@)
    }
}

/// All names in the table are distinct, so every name has exactly one id.
pub open spec fn distinct_names(s: Seq<Seq<u8>>) -> bool {
    forall|i: int, j: int| 0 <= i < j < s.len() ==> s[i] != s[j]
}

/// What one interning step does to the table: an absent name is appended,
/// a present name leaves the table unchanged.
pub open spec fn insert_name(s: Seq<Seq<u8>>, name: Seq<u8>) -> Seq<Seq<u8>> {
    if s.contains(name) {
        s
    } else {
        s.push(name)
    }
}

/// The id one interning step hands out: the unique position of `name` in the
/// table after the step.
pub open spec fn interned_id(s: Seq<Seq<u8>>, name: Seq<u8>, id: int) -> bool {
    &&& 0 <= id < insert_name(s, name).len()
    &&& insert_name(s, name)[id] == name
}

impl Dictionary {
    /// Whether the table is well formed: no name appears under two ids.
    pub open spec fn wf(&self) -> bool {
        distinct_names(self@)
    }

    pub fn new() -> (d: Dictionary)
        ensures
            d.wf(),
            d@ =~= Seq::<Seq<u8>>::empty(),
    {
        Dictionary { names: Vec::new() }
    }

    /// The number of names interned so far.
    pub fn count(&self) -> (n: usize)
        ensures
            n == self@.len(),
    {
        self.names.len()
    }

    /// Position of `name` in the table, if it is there: the id it was assigned.
    fn find(&self, name: &Vec<u8>) -> (r: Option<usize>)
        ensures
            match r {
                Some(id) => id < self@.len() && self@[id as int] == name@,
                None => !self@.contains(name@),
            },
    {
        let n = self.names.len();
        for i in 0..n
            invariant
                n == self@.len(),
                forall|j: int| 0 <= j < i ==> self@[j] != name@,
        {
            if vecs_eq(&self.names[i], name) {
                return Some(i);
            }
        }
        None
    }

    /// Interns `name`: returns its existing id if the name is already in the
    /// table, otherwise assigns it the next dense id.  Idempotent; never
    /// renumbers earlier names.
    pub fn intern(&mut self, name: Vec<u8>) -> (id: usize)
        requires
            old(self).wf(),
        ensures
            final(self).wf(),
            final(self)@ == insert_name(old(self)@, name@),
            interned_id(old(self)@, name@, id as int),
    {
        match self.find(&name) {
            Some(id) => {
                proof {
                    assert(insert_name(self@, name@) == self@);
                }
                id
            },
            None => {
                let id = self.names.len();
                self.names.push(name);
                proof {
                    assert(self@ =~= old(self)@.push(name@));
                    lemma_insert_keeps_distinct(old(self)@, name@);
                }
                id
            },
        }
    }

    /// The id of `name`, or `DictionaryLookupFailed` if it was never interned.
    pub fn id_of(&self, name: &Vec<u8>) -> (r: Result<usize, CrfError>)
        ensures
            r is Ok <==> self@.contains(name@),
            match r {
                Ok(id) => id < self@.len() && self@[id as int] == name@,
                Err(e) => e == CrfError::DictionaryLookupFailed,
            },
    {
        match self.find(name) {
            Some(id) => Ok(id),
            None => Err(CrfError::DictionaryLookupFailed),
        }
    }

    /// Builds a table directly from a list of distinct names, ids in list
    /// order.
    pub fn from_names(names: Vec<Vec<u8>>) -> (d: Dictionary)
        requires
            distinct_names(names@.map_values(|n: Vec<u8>| n@)),
        ensures
            d.wf(),
            d@ == names@.map_values(|n: Vec<u8>| n@),
    {
        Dictionary { names }
    }

    /// Every stored name has an in-memory length, as does the table itself.
    pub proof fn lemma_name_lens(&self)
        ensures
            self@.len() <= usize::MAX,
            forall|i: int| 0 <= i < self@.len() ==> (#[trigger] self@[i]).len() <= usize::MAX,
    {
        assert(self.names@.len() == vstd::std_specs::vec::spec_vec_len(&self.names));
        assert forall|i: int| 0 <= i < self@.len() implies (#[trigger] self@[i]).len()
            <= usize::MAX by {
            let v = self.names@[i];
            assert(self@[i] == v@);
            assert(v@.len() == vstd::std_specs::vec::spec_vec_len(&v));
        }
    }

    /// The name at a known-good id.
    pub fn name_at(&self, id: usize) -> (r: &Vec<u8>)
        requires
            id < self@.len(),
        ensures
            r@ == self@[id as int],
    {
        &self.names[id]
    }

    /// The name assigned to `id`, or `DictionaryLookupFailed` for an id that
    /// was never handed out.
    pub fn name_of(&self, id: usize) -> (r: Result<&Vec<u8>, CrfError>)
        ensures
            r is Ok <==> id < self@.len(),
            match r {
                Ok(name) => name@ == self@[id as int],
                Err(e) => e == CrfError::DictionaryLookupFailed,
            },
    {
        if id < self.names.len() {
            Ok(&self.names[id])
        } else {
            Err(CrfError::DictionaryLookupFailed)
        }
    }
}

/// The id of `name` in the table: the unique position holding it.
pub open spec fn name_id(s: Seq<Seq<u8>>, name: Seq<u8>) -> int {
    choose|i: int| 0 <= i < s.len() && s[i] == name
}

/// In a table of distinct names, any position holding `name` is its id.
pub proof fn lemma_name_id_unique(s: Seq<Seq<u8>>, name: Seq<u8>, id: int)
    requires
        distinct_names(s),
        0 <= id < s.len(),
        s[id] == name,
    ensures
        s.contains(name),
        name_id(s, name) == id,
{
    assert(s.contains(name)) by {
        assert(s[id] == name);
    }
    let k = name_id(s, name);
    assert(0 <= k < s.len() && s[k] == name);
    if k != id {
        assert(s[k] != s[id]);
    }
}

/// A fresh copy of a byte string.
pub fn copy_bytes(v: &Vec<u8>) -> (r: Vec<u8>)
    ensures
        r@ == v@,
{
    let n = v.len();
    let mut r: Vec<u8> = Vec::new();
    for i in 0..n
        invariant
            n == v@.len(),
            r@.len() == i,
            forall|j: int| 0 <= j < i ==> #[trigger] r@[j] == v@[j],
    {
        r.push(v[i]);
    }
    proof {
        assert(r@ =~= v@);
    }
    r
}

/// Byte-wise equality of two byte strings.
pub fn vecs_eq(a: &Vec<u8>, b: &Vec<u8>) -> (r: bool)
    ensures
        r <==> a@ == b@,
{
    if a.len() != b.len() {
        proof {
            assert(a@.len() != b@.len());
        }
        return false;
    }
    let n = a.len();
    for i in 0..n
        invariant
            n == a@.len() && n == b@.len(),
            forall|j: int| 0 <= j < i ==> a@[j] == b@[j],
    {
        if a[i] != b[i] {
            return false;
        }
    }
    proof {
        assert(a@ =~= b@);
    }
    true
}

/// Interning a name a second time returns the same id as the first time and
/// leaves the table unchanged: `intern` is idempotent.
pub proof fn lemma_intern_idempotent(s: Seq<Seq<u8>>, name: Seq<u8>, id1: int, id2: int)
    requires
        distinct_names(s),
        interned_id(s, name, id1),
        interned_id(insert_name(s, name), name, id2),
    ensures
        insert_name(insert_name(s, name), name) == insert_name(s, name),
        id2 == id1,
{
    let s1 = insert_name(s, name);
    assert(s1.contains(name)) by {
        assert(s1[id1] == name);
    }
    assert(distinct_names(s1)) by {
        lemma_insert_keeps_distinct(s, name);
    }
}

/// One interning step keeps the names distinct.
pub proof fn lemma_insert_keeps_distinct(s: Seq<Seq<u8>>, name: Seq<u8>)
    requires
        distinct_names(s),
    ensures
        distinct_names(insert_name(s, name)),
{
    if !s.contains(name) {
        let s1 = s.push(name);
        assert forall|i: int, j: int| 0 <= i < j < s1.len() implies s1[i] != s1[j] by {
            if j == s.len() {
                assert(s1[i] == s[i]);
                assert(!s.contains(name));
                assert(s[i] != name);
            }
        }
    }
}

/// The table produced by interning each of `names` in order, starting from `s`.
pub open spec fn intern_all(s: Seq<Seq<u8>>, names: Seq<Seq<u8>>) -> Seq<Seq<u8>>
    decreases names.len(),
{
    if names.len() == 0 {
        s
    } else {
        intern_all(insert_name(s, names[0]), names.skip(1))
    }
}

/// Interning N distinct fresh names into a table grows it by exactly N, so a
/// table built from an empty one by N distinct interns has count N.
pub proof fn lemma_count_after_distinct_interns(s: Seq<Seq<u8>>, names: Seq<Seq<u8>>)
    requires
        distinct_names(names),
        forall|i: int| 0 <= i < names.len() ==> !s.contains(#[trigger] names[i]),
    ensures
        intern_all(s, names).len() == s.len() + names.len(),
    decreases names.len(),
{
    if names.len() > 0 {
        let s1 = insert_name(s, names[0]);
        assert(s1 == s.push(names[0]));
        let rest = names.skip(1);
        assert forall|i: int| 0 <= i < rest.len() implies !s1.contains(#[trigger] rest[i]) by {
            assert(rest[i] == names[i + 1]);
            if s1.contains(rest[i]) {
                let k = choose|k: int| 0 <= k < s1.len() && s1[k] == rest[i];
                if k < s.len() {
                    assert(s.contains(rest[i]));
                } else {
                    assert(s1[k] == names[0]);
                    assert(names[0] != names[i + 1]);
                }
            }
        }
        lemma_count_after_distinct_interns(s1, rest);
    }
}

} // verus!
