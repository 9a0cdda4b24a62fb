use vstd::prelude::*;
use crate::text::strs;
use crate::MarkovError;

verus! {

/// The views of a sequence of successor lists.
pub open spec fn lists(v: Seq<Vec<String>>) -> Seq<Seq<Seq<char>>> {
    v.map_values(|l: Vec<String>| strs(l@))
}

/// The mapping whose entries are `ks[i] -> vs[i]`, later entries overriding earlier ones.
pub open spec fn entries_map(ks: Seq<Seq<char>>, vs: Seq<Seq<Seq<char>>>) -> Map<
    Seq<char>,
    Seq<Seq<char>>,
>
    decreases ks.len(),
{
    if ks.len() == 0 {
        Map::empty()
    } else {
        entries_map(ks.drop_last(), vs).insert(ks.last(), vs[ks.len() - 1])
    }
}

proof fn lemma_entries_map(ks: Seq<Seq<char>>, vs: Seq<Seq<Seq<char>>>)
    requires
        ks.len() <= vs.len(),
        ks.no_duplicates(),
    ensures
        forall|k: Seq<char>| #[trigger] entries_map(ks, vs).contains_key(k) <==> ks.contains(k),
        forall|i: int| 0 <= i < ks.len() ==> #[trigger] entries_map(ks, vs)[ks[i]] == vs[i],
        entries_map(ks, vs).dom().finite(),
        entries_map(ks, vs).dom().len() == ks.len(),
    decreases ks.len(),
{
    if ks.len() > 0 {
        let init = ks.drop_last();
        lemma_entries_map(init, vs);
        assert(!init.contains(ks.last()));
        assert forall|k: Seq<char>| #[trigger] entries_map(ks, vs).contains_key(k) <==> ks.contains(k) by {
            if ks.contains(k) && k != ks.last() {
                let i = choose|i: int| 0 <= i < ks.len() && ks[i] == k;
                assert(init[i] == k);
            }
            if init.contains(k) {
                let i = choose|i: int| 0 <= i < init.len() && init[i] == k;
                assert(ks[i] == k);
            }
        }
        assert forall|i: int| 0 <= i < ks.len() implies #[trigger] entries_map(ks, vs)[ks[i]] == vs[i] by {
            if i < ks.len() - 1 {
                assert(init[i] == ks[i]);
                assert(ks[i] != ks.last());
            }
        }
    }
}

/// A word-level Markov model: each state maps to the words seen after it.
///
/// Stored as two parallel vectors, keys pairwise distinct.
pub struct Model {
    keys: Vec<String>,
    succs: Vec<Vec<String>>,
}

impl View for Model {
    type V = Map<Seq<char>, Seq<Seq<char>>>;

    closed spec fn view(&self) -> Self::V {
        entries_map(strs(self.keys@), lists(self.succs@))
    }
}

/// A name for the JSON text that `serde_json::to_string` gives for a string-to-list mapping.
pub uninterp spec fn model_json(m: Map<Seq<char>, Seq<Seq<char>>>) -> Seq<char>;

/// Relies on `serde_json::to_string` of a `BTreeMap<&String, &Vec<String>>`: it writes a JSON
/// object, one member per entry, in key order. It cannot fail: the keys are strings and the
/// writer is a `Vec<u8>`.
#[verifier::external_body]
fn encode_entries(keys: &Vec<String>, succs: &Vec<Vec<String>>) -> (r: Result<
    String,
    serde_json::Error,
>)
    requires
        keys.len() == succs.len(),
        strs(keys@).no_duplicates(),
    ensures
        r is Ok,
        r matches Ok(s) ==> s@ == model_json(entries_map(strs(keys@), lists(succs@))),
{
    let map: std::collections::BTreeMap<&String, &Vec<String>> = keys.iter().zip(
        succs.iter(),
    ).collect();
    serde_json::to_string(&map)
}

/// Relies on `serde_json::from_str` into a `BTreeMap<String, Vec<String>>`: a JSON object of
/// string lists decodes to its entries, with distinct keys, and the text that `to_string`
/// wrote for a mapping decodes to that same mapping.
#[verifier::external_body]
fn decode_entries(text: &str) -> (r: Result<(Vec<String>, Vec<Vec<String>>), serde_json::Error>)
    ensures
        r matches Ok(p) ==> p.0.len() == p.1.len() && strs(p.0@).no_duplicates(),
        forall|m: Map<Seq<char>, Seq<Seq<char>>>|
            m.dom().finite() && text@ == #[trigger] model_json(m) ==> r is Ok && entries_map(
                strs(r->Ok_0.0@),
                lists(r->Ok_0.1@),
            ) == m,
{
    match serde_json::from_str::<std::collections::BTreeMap<String, Vec<String>>>(text) {
        Ok(m) => Ok(m.into_iter().unzip()),
        Err(e) => Err(e),
    }
}

#[verifier::external_type_specification]
#[verifier::external_body]
pub struct ExJsonError(serde_json::Error);

impl Model {
    /// Keys distinct, one successor list per key.
    pub closed spec fn wf(&self) -> bool {
        self.keys.len() == self.succs.len() && strs(self.keys@).no_duplicates()
    }

    proof fn lemma_view(&self)
        requires
            self.wf(),
        ensures
            forall|k: Seq<char>| #[trigger] self@.contains_key(k) <==> strs(self.keys@).contains(k),
            forall|i: int| 0 <= i < self.keys.len() ==> #[trigger] self@[self.keys@[i]@] == strs(self.succs@[i]@),
            self@.dom().finite(),
            self@.dom().len() == self.keys.len(),
    {
        lemma_entries_map(strs(self.keys@), lists(self.succs@));
        assert forall|i: int| 0 <= i < self.keys.len() implies #[trigger] self@[self.keys@[i]@] == strs(self.succs@[i]@) by {
            assert(strs(self.keys@)[i] == self.keys@[i]@);
        }
    }

    /// Every model has finitely many states.
    pub proof fn lemma_finite(&self)
        requires
            self.wf(),
        ensures
            self@.dom().finite(),
    {
        self.lemma_view();
    }

    /// The model with no states.
    pub fn new() -> (r: Model)
        ensures
            r.wf(),
            r@ == Map::<Seq<char>, Seq<Seq<char>>>::empty(),
    {
        let r = Model { keys: Vec::new(), succs: Vec::new() };
        assert(strs(r.keys@) =~= seq![]);
        r
    }

    /// The number of states.
    pub fn len(&self) -> (r: usize)
        requires
            self.wf(),
        ensures
            r == self@.dom().len(),
    {
        proof {
            self.lemma_view();
        }
        self.keys.len()
    }

    /// Whether the model has no states.
    pub fn is_empty(&self) -> (r: bool)
        requires
            self.wf(),
        ensures
            r <==> self@.dom().len() == 0,
            self@.dom().finite(),
    {
        proof {
            self.lemma_view();
        }
        self.keys.len() == 0
    }

    fn find(&self, key: &String) -> (r: Option<usize>)
        requires
            self.wf(),
        ensures
            r matches Some(i) ==> i < self.keys.len() && self.keys@[i as int]@ == key@,
            r is None ==> !self@.contains_key(key@),
    {
        proof {
            self.lemma_view();
        }
        let mut i: usize = 0;
        while i < self.keys.len()
            invariant
                self.wf(),
                i <= self.keys.len(),
                forall|j: int| 0 <= j < i ==> self.keys@[j]@ != key@,
            decreases self.keys.len() - i,
        {
            if self.keys[i] == *key {
                return Some(i);
            }
            i += 1;
        }
        proof {
            if strs(self.keys@).contains(key@) {
                let j = choose|j: int| 0 <= j < self.keys.len() && strs(self.keys@)[j] == key@;
                assert(self.keys@[j]@ == key@);
            }
        }
        None
    }

    /// The successors of `key`, if it is a state of the model.
    pub fn get(&self, key: &String) -> (r: Option<&Vec<String>>)
        requires
            self.wf(),
        ensures
            r is Some <==> self@.contains_key(key@),
            r matches Some(v) ==> strs(v@) == self@[key@],
    {
        proof {
            self.lemma_view();
        }
        match self.find(key) {
            Some(i) => {
                assert(strs(self.keys@)[i as int] == key@);
                Some(&self.succs[i])
            },
            None => None,
        }
    }

    /// The states of the model, each once, in no particular order.
    pub fn keys(&self) -> (r: Vec<String>)
        requires
            self.wf(),
        ensures
            strs(r@).no_duplicates(),
            forall|k: Seq<char>| #[trigger] strs(r@).contains(k) <==> self@.contains_key(k),
    {
        proof {
            self.lemma_view();
        }
        let r = self.keys.clone();
        assert(strs(r@) =~= strs(self.keys@)) by {
            assert forall|i: int| 0 <= i < r.len() implies r@[i]@ == self.keys@[i]@ by {
                assert(r@[i] == self.keys@[i]);
            }
        }
        r
    }

    proof fn lemma_replaced(old: &Model, new: &Model, i: int, v: Seq<Seq<char>>)
        requires
            old.wf(),
            new.wf(),
            0 <= i < old.keys.len(),
            new.keys@ == old.keys@,
            strs(new.succs@[i]@) == v,
            forall|j: int| 0 <= j < old.keys.len() && j != i ==> new.succs@[j] == old.succs@[j],
        ensures
            new@ == old@.insert(old.keys@[i]@, v),
    {
        old.lemma_view();
        new.lemma_view();
        assert(strs(new.keys@) == strs(old.keys@));
        assert(strs(old.keys@)[i] == old.keys@[i]@);
        assert forall|k: Seq<char>| #[trigger] new@.contains_key(k) implies new@[k] == old@.insert(
            old.keys@[i]@,
            v,
        )[k] by {
            let j = choose|j: int| 0 <= j < new.keys.len() && strs(new.keys@)[j] == k;
            assert(new.keys@[j]@ == k);
            if j != i {
                assert(strs(old.keys@)[j] != strs(old.keys@)[i]);
            }
        }
        assert(new@ =~= old@.insert(old.keys@[i]@, v));
    }

    proof fn lemma_appended(old: &Model, new: &Model, k: Seq<char>, v: Seq<Seq<char>>)
        requires
            old.wf(),
            new.wf(),
            !old@.contains_key(k),
            new.keys.len() == old.keys.len() + 1,
            new.keys@ == old.keys@.push(new.keys@.last()),
            new.keys@.last()@ == k,
            new.succs@ == old.succs@.push(new.succs@.last()),
            strs(new.succs@.last()@) == v,
        ensures
            new@ == old@.insert(k, v),
    {
        old.lemma_view();
        new.lemma_view();
        let n = old.keys.len() as int;
        assert(new.keys@[n]@ == k);
        assert(strs(new.keys@)[n] == k);
        assert(new@.contains_key(k));
        assert(new@[k] == strs(new.succs@[n]@));
        assert forall|q: Seq<char>| #[trigger] new@.contains_key(q) implies old@.insert(
            k,
            v,
        ).contains_key(q) && new@[q] == old@.insert(k, v)[q] by {
            let j = choose|j: int| 0 <= j < new.keys.len() && strs(new.keys@)[j] == q;
            assert(new.keys@[j]@ == q);
            if j < n {
                assert(old.keys@[j] == new.keys@[j]);
                assert(old.succs@[j] == new.succs@[j]);
                assert(strs(old.keys@)[j] == q);
            }
        }
        assert forall|q: Seq<char>| #[trigger] old@.contains_key(q) implies new@.contains_key(q) by {
            let j = choose|j: int| 0 <= j < old.keys.len() && strs(old.keys@)[j] == q;
            assert(strs(new.keys@)[j] == q);
        }
        assert(new@ =~= old@.insert(k, v));
    }

    /// Sets the successors of `key` to `successors`, adding the state if it is new.
    pub fn insert(&mut self, key: String, successors: Vec<String>)
        requires
            old(self).wf(),
        ensures
            final(self).wf(),
            final(self)@ == old(self)@.insert(key@, strs(successors@)),
    {
        let ghost before = *self;
        match self.find(&key) {
            Some(i) => {
                self.succs.set(i, successors);
                proof {
                    Model::lemma_replaced(&before, self, i as int, strs(successors@));
                }
            },
            None => {
                proof {
                    before.lemma_view();
                }
                self.keys.push(key);
                self.succs.push(successors);
                proof {
                    assert(strs(self.keys@) =~= strs(before.keys@).push(key@));
                    assert forall|a: int, b: int| 0 <= a < b < self.keys.len() implies strs(self.keys@)[a] != strs(self.keys@)[b] by {
                        if b == before.keys.len() {
                            assert(strs(before.keys@)[a] == strs(self.keys@)[a]);
                        }
                    }
                    Model::lemma_appended(&before, self, key@, strs(successors@));
                }
            },
        }
    }

    /// Appends `word` to the successors of `key`, creating the state with just `word` if it is
    /// new.
    pub fn push_successor(&mut self, key: String, word: String)
        requires
            old(self).wf(),
        ensures
            final(self).wf(),
            final(self)@ == old(self)@.insert(
                key@,
                (if old(self)@.contains_key(key@) {
                    old(self)@[key@]
                } else {
                    seq![]
                }).push(word@),
            ),
    {
        let ghost before = *self;
        proof {
            before.lemma_view();
        }
        match self.find(&key) {
            Some(i) => {
                assert(strs(before.keys@)[i as int] == key@);
                let mut list = self.succs[i].clone();
                assert(list@ == before.succs@[i as int]@);
                list.push(word);
                assert(strs(list@) =~= before@[key@].push(word@));
                self.succs.set(i, list);
                proof {
                    Model::lemma_replaced(&before, self, i as int, before@[key@].push(word@));
                }
            },
            None => {
                let list = vec![word];
                assert(strs(list@) =~= seq![word@]);
                self.keys.push(key);
                self.succs.push(list);
                proof {
                    assert(strs(self.keys@) =~= strs(before.keys@).push(key@));
                    assert forall|a: int, b: int| 0 <= a < b < self.keys.len() implies strs(self.keys@)[a] != strs(self.keys@)[b] by {
                        if b == before.keys.len() {
                            assert(strs(before.keys@)[a] == strs(self.keys@)[a]);
                        }
                    }
                    assert(Seq::<Seq<char>>::empty().push(word@) =~= seq![word@]);
                    Model::lemma_appended(&before, self, key@, seq![word@]);
                }
            },
        }
    }

    /// The model as a JSON object from each state to its list of successors.
    pub fn serialize(&self) -> (r: String)
        requires
            self.wf(),
        ensures
            r@ == model_json(self@),
    {
        match encode_entries(&self.keys, &self.succs) {
            Ok(s) => s,
            Err(_) => String::new(),
        }
    }

    /// Reads a model from a JSON object of string lists.
    ///
    /// Text that `serialize` wrote decodes to a model with the same states and the same
    /// successor lists.
    pub fn deserialize(text: &str) -> (r: Result<Model, MarkovError>)
        ensures
            r matches Ok(m) ==> m.wf(),
            r matches Err(e) ==> e == MarkovError::DeserializationError,
            forall|m: Map<Seq<char>, Seq<Seq<char>>>|
                m.dom().finite() && text@ == #[trigger] model_json(m) ==> (r matches Ok(x)
                    && x@ == m),
    {
        match decode_entries(text) {
            Ok(p) => Ok(Model { keys: p.0, succs: p.1 }),
            Err(_) => Err(MarkovError::DeserializationError),
        }
    }
}

} // verus!
