use vstd::prelude::*;

use crate::error::{RepositoryError, ValidationError};
use crate::label::{CreateLabel, Label, LabelView};
use crate::validate::{length_ok, LABEL_NAME_MAX};

verus! {

/// What a label store holds: each label's name by id, and the id that the
/// next label will get.
pub struct LabelStoreModel {
    pub labels: Map<i32, Seq<char>>,
    pub next_id: i32,
}

/// Some label is named `name`.
pub open spec fn has_name(labels: Map<i32, Seq<char>>, name: Seq<char>) -> bool {
    exists|id: i32| #[trigger] labels.contains_key(id) && labels[id] == name
}

/// No two labels share a name.
pub open spec fn names_unique(labels: Map<i32, Seq<char>>) -> bool {
    forall|a: i32, b: i32|
        #[trigger] labels.contains_key(a) && #[trigger] labels.contains_key(b) && a != b ==> labels[a]
            != labels[b]
}

/// What a well-formed label store holds: ids from 1 up to, not including, the
/// next id, and names that are unique.
pub open spec fn label_model_wf(s: LabelStoreModel) -> bool {
    &&& 1 <= s.next_id
    &&& forall|id: i32| #[trigger] s.labels.contains_key(id) ==> 1 <= id < s.next_id
    &&& names_unique(s.labels)
}

/// What `create` does: an empty or overlong name is refused; a new name gets
/// the next id, which no label has; a name that is taken is refused with the
/// id of the label that has it; when the ids are used up the store fails. On
/// every failure the store stays as it was.
pub open spec fn label_create_post(
    pre: LabelStoreModel,
    name: Seq<char>,
    r: Result<Label, RepositoryError>,
    post: LabelStoreModel,
) -> bool {
    match r {
        Ok(l) => {
            &&& length_ok(name, LABEL_NAME_MAX)
            &&& !has_name(pre.labels, name)
            &&& pre.next_id < i32::MAX
            &&& !pre.labels.contains_key(pre.next_id)
            &&& l@ == (LabelView { id: pre.next_id, name })
            &&& post == (LabelStoreModel {
                labels: pre.labels.insert(pre.next_id, name),
                next_id: (pre.next_id + 1) as i32,
            })
        },
        Err(RepositoryError::Invalid(v)) => {
            &&& !length_ok(name, LABEL_NAME_MAX)
            &&& (v == ValidationError::Empty <==> name.len() == 0)
            &&& post == pre
        },
        Err(RepositoryError::DuplicatedLabel(id)) => {
            &&& length_ok(name, LABEL_NAME_MAX)
            &&& pre.labels.contains_key(id)
            &&& pre.labels[id] == name
            &&& post == pre
        },
        Err(RepositoryError::Unexpected(_)) => {
            &&& length_ok(name, LABEL_NAME_MAX)
            &&& !has_name(pre.labels, name)
            &&& pre.next_id == i32::MAX
            &&& post == pre
        },
        Err(RepositoryError::NotFound(_)) => false,
    }
}

/// What `all` returns: every label once, in ascending order of id.
pub open spec fn label_all_post(s: LabelStoreModel, r: Result<Vec<Label>, RepositoryError>) -> bool {
    match r {
        Ok(v) => labels_listed(s, v@),
        Err(_) => false,
    }
}

/// `v` lists every label of `s` once, in ascending order of id.
pub open spec fn labels_listed(s: LabelStoreModel, v: Seq<Label>) -> bool {
    &&& forall|i: int, j: int| 0 <= i < j < v.len() ==> v[i].id < v[j].id
    &&& forall|i: int|
        0 <= i < v.len() ==> s.labels.contains_key(#[trigger] v[i].id) && s.labels[v[i].id]
            == v[i].name@
    &&& forall|id: i32|
        #[trigger] s.labels.contains_key(id) ==> exists|i: int| 0 <= i < v.len() && #[trigger] v[i].id == id
}

/// What `delete` does: it removes the label `id`, or fails with `NotFound`
/// when there is none.
pub open spec fn label_delete_post(
    pre: LabelStoreModel,
    id: i32,
    r: Result<(), RepositoryError>,
    post: LabelStoreModel,
) -> bool {
    match r {
        Ok(_) => pre.labels.contains_key(id) && post == (LabelStoreModel {
            labels: pre.labels.remove(id),
            next_id: pre.next_id,
        }),
        Err(e) => !pre.labels.contains_key(id) && e == RepositoryError::NotFound(id) && post == pre,
    }
}

/// Creating a second label with the name of the first is refused as a
/// duplicate that names the first label, and leaves the store as it was.
pub proof fn lemma_duplicate_label_refused(
    s0: LabelStoreModel,
    name: Seq<char>,
    r1: Result<Label, RepositoryError>,
    s1: LabelStoreModel,
    r2: Result<Label, RepositoryError>,
    s2: LabelStoreModel,
)
    requires
        label_create_post(s0, name, r1, s1),
        r1 is Ok,
        label_create_post(s1, name, r2, s2),
    ensures
        r2 == Err::<Label, RepositoryError>(RepositoryError::DuplicatedLabel(r1->Ok_0.id)),
        s2 == s1,
{
    let first = r1->Ok_0;
    assert(s1.labels.contains_key(first.id) && s1.labels[first.id] == name);
    assert(has_name(s1.labels, name));
    match r2 {
        Err(RepositoryError::DuplicatedLabel(id)) => {
            if id != first.id {
                assert(s0.labels.contains_key(id) && s0.labels[id] == name);
                assert(has_name(s0.labels, name));
            }
        },
        _ => {},
    }
}

/// A store of labels whose names are unique.
pub trait LabelRepository: View<V = LabelStoreModel> + Sized {
    /// The store's own well-formedness.
    spec fn inv(&self) -> bool;

    /// A well-formed store has a well-formed model.
    proof fn lemma_model_wf(&self)
        requires
            self.inv(),
        ensures
            label_model_wf(self@),
    ;

    /// Adds a label with a valid name, unless one with the same name exists.
    fn create(&mut self, label: CreateLabel) -> (r: Result<Label, RepositoryError>)
        requires
            old(self).inv(),
        ensures
            final(self).inv(),
            label_create_post(old(self)@, label.name@, r, final(self)@),
    ;

    /// All labels, in ascending order of id.
    fn all(&self) -> (r: Result<Vec<Label>, RepositoryError>)
        requires
            self.inv(),
        ensures
            label_all_post(self@, r),
    ;

    /// Removes the label `id`.
    fn delete(&mut self, id: i32) -> (r: Result<(), RepositoryError>)
        requires
            old(self).inv(),
        ensures
            final(self).inv(),
            label_delete_post(old(self)@, id, r, final(self)@),
    ;
}

/// Labels held in memory, in ascending order of id.
pub struct LabelRepositoryForMemory {
    labels: Vec<Label>,
    next_id: i32,
}

impl View for LabelRepositoryForMemory {
    type V = LabelStoreModel;

    closed spec fn view(&self) -> LabelStoreModel {
        LabelStoreModel {
            labels: Map::new(
                |id: i32| exists|i: int| 0 <= i < self.labels.len() && #[trigger] self.labels[i].id == id,
                |id: i32| self.labels[self.index_of(id)].name@,
            ),
            next_id: self.next_id,
        }
    }
}

impl LabelRepositoryForMemory {
    /// Where the label `id` stands in the vector.
    closed spec fn index_of(&self, id: i32) -> int {
        choose|i: int| 0 <= i < self.labels.len() && #[trigger] self.labels[i].id == id
    }

    /// An empty store; the first label gets id 1.
    pub fn new() -> (r: LabelRepositoryForMemory)
        ensures
            r.inv(),
            r@ == (LabelStoreModel { labels: Map::empty(), next_id: 1 }),
    {
        let r = LabelRepositoryForMemory { labels: Vec::new(), next_id: 1 };
        assert(r@.labels =~= Map::empty());
        r
    }

    proof fn lemma_index_of(&self, i: int)
        requires
            self.inv(),
            0 <= i < self.labels.len(),
        ensures
            self.index_of(self.labels[i].id) == i,
            self@.labels.contains_key(self.labels[i].id),
            self@.labels[self.labels[i].id] == self.labels[i].name@,
    {
        let id = self.labels[i].id;
        assert(self@.labels.contains_key(id));
        let j = self.index_of(id);
        if j != i {
            if j < i {
                assert(self.labels[j].id < self.labels[i].id);
            } else {
                assert(self.labels[i].id < self.labels[j].id);
            }
        }
    }

    /// Where the label `id` stands, if there is one.
    fn position(&self, id: i32) -> (r: Option<usize>)
        requires
            self.inv(),
        ensures
            r is None <==> !self@.labels.contains_key(id),
            r matches Some(p) ==> p < self.labels.len() && self.labels[p as int].id == id,
    {
        let mut p: usize = 0;
        while p < self.labels.len()
            invariant
                p <= self.labels.len(),
                forall|i: int| 0 <= i < p ==> self.labels[i].id != id,
            decreases self.labels.len() - p,
        {
            if self.labels[p].id == id {
                return Some(p);
            }
            p = p + 1;
        }
        proof {
            if self@.labels.contains_key(id) {
                let i = choose|i: int| 0 <= i < self.labels.len() && #[trigger] self.labels[i].id == id;
                assert(self.labels[i].id != id);
            }
        }
        None
    }

    /// The label with the id `id`, if there is one.
    pub fn find(&self, id: i32) -> (r: Option<Label>)
        requires
            self.inv(),
        ensures
            r is None <==> !self@.labels.contains_key(id),
            r matches Some(l) ==> l@ == (LabelView { id, name: self@.labels[id] }),
    {
        match self.position(id) {
            Some(p) => {
                proof {
                    self.lemma_index_of(p as int);
                }
                Some(self.labels[p].duplicate())
            },
            None => None,
        }
    }

    /// The id of the label named `name`, if there is one.
    fn id_of_name(&self, name: &String) -> (r: Option<i32>)
        requires
            self.inv(),
        ensures
            r is None <==> !has_name(self@.labels, name@),
            r matches Some(id) ==> self@.labels.contains_key(id) && self@.labels[id] == name@,
    {
        let mut p: usize = 0;
        while p < self.labels.len()
            invariant
                self.inv(),
                p <= self.labels.len(),
                forall|i: int| 0 <= i < p ==> self.labels[i].name@ != name@,
            decreases self.labels.len() - p,
        {
            if self.labels[p].name == *name {
                proof {
                    self.lemma_index_of(p as int);
                }
                return Some(self.labels[p].id);
            }
            p = p + 1;
        }
        proof {
            if has_name(self@.labels, name@) {
                let id = choose|id: i32| #[trigger] self@.labels.contains_key(id) && self@.labels[id] == name@;
                let i = self.index_of(id);
                assert(self.labels[i].name@ == name@);
            }
        }
        None
    }
}

impl LabelRepository for LabelRepositoryForMemory {
    closed spec fn inv(&self) -> bool {
        &&& 1 <= self.next_id
        &&& forall|i: int| 0 <= i < self.labels.len() ==> 1 <= #[trigger] self.labels[i].id < self.next_id
        &&& forall|i: int, j: int| 0 <= i < j < self.labels.len() ==> self.labels[i].id < self.labels[j].id
        &&& forall|i: int, j: int|
            0 <= i < j < self.labels.len() ==> #[trigger] self.labels[i].name@ != #[trigger] self.labels[j].name@
    }

    proof fn lemma_model_wf(&self) {
        assert forall|id: i32| #[trigger] self@.labels.contains_key(id) implies 1 <= id < self@.next_id by {
            self.lemma_index_of(self.index_of(id));
        }
        assert forall|a: i32, b: i32|
            #[trigger] self@.labels.contains_key(a) && #[trigger] self@.labels.contains_key(b) && a != b
                implies self@.labels[a] != self@.labels[b] by {
            let i = self.index_of(a);
            let j = self.index_of(b);
            self.lemma_index_of(i);
            self.lemma_index_of(j);
            if i > j {
                assert(self.labels[j].name@ != self.labels[i].name@);
            }
        }
    }

    fn create(&mut self, label: CreateLabel) -> (r: Result<Label, RepositoryError>) {
        match label.validate() {
            Err(v) => {
                return Err(RepositoryError::Invalid(v));
            },
            Ok(()) => {},
        }
        match self.id_of_name(&label.name) {
            Some(id) => {
                return Err(RepositoryError::DuplicatedLabel(id));
            },
            None => {},
        }
        if self.next_id == i32::MAX {
            return Err(RepositoryError::Unexpected("no label id is left".to_string()));
        }
        let ghost pre = self@;
        let ghost old_labels = self.labels@;
        proof {
            self.lemma_model_wf();
            assert forall|i: int| 0 <= i < old_labels.len() implies #[trigger] old_labels[i].name@ != label.name@ by {
                self.lemma_index_of(i);
            }
        }
        let id = self.next_id;
        let created = Label { id, name: label.name };
        self.labels.push(created.duplicate());
        self.next_id = id + 1;
        proof {
            let post = self@;
            let expected = pre.labels.insert(id, created.name@);
            assert forall|k: i32| #[trigger] post.labels.contains_key(k) <==> expected.contains_key(k) by {
                if expected.contains_key(k) && k != id {
                    let i = choose|i: int| 0 <= i < old_labels.len() && #[trigger] old_labels[i].id == k;
                    assert(self.labels[i] == old_labels[i]);
                }
                if k == id {
                    assert(self.labels[self.labels.len() - 1].id == id);
                }
            }
            assert forall|k: i32| #[trigger] post.labels.contains_key(k) implies post.labels[k] == expected[k] by {
                let i = self.index_of(k);
                self.lemma_index_of(i);
                if k != id {
                    let j = choose|j: int| 0 <= j < old_labels.len() && #[trigger] old_labels[j].id == k;
                    assert(self.labels[j] == old_labels[j]);
                    assert(i == j) by {
                        self.lemma_index_of(j);
                    }
                }
            }
            assert(post.labels =~= expected);
        }
        Ok(created)
    }

    fn all(&self) -> (r: Result<Vec<Label>, RepositoryError>) {
        let mut v: Vec<Label> = Vec::new();
        let mut i: usize = 0;
        while i < self.labels.len()
            invariant
                self.inv(),
                i <= self.labels.len(),
                v@ == self.labels@.take(i as int),
            decreases self.labels.len() - i,
        {
            v.push(self.labels[i].duplicate());
            assert(v@ =~= self.labels@.take(i + 1));
            i = i + 1;
        }
        assert(v@ =~= self.labels@);
        assert forall|k: int| 0 <= k < v.len() implies self@.labels.contains_key(#[trigger] v[k].id)
            && self@.labels[v[k].id] == v[k].name@ by {
            self.lemma_index_of(k);
        }
        assert forall|id: i32| #[trigger] self@.labels.contains_key(id) implies exists|k: int|
            0 <= k < v.len() && #[trigger] v[k].id == id by {
            let k = self.index_of(id);
            assert(v[k].id == id);
        }
        assert(labels_listed(self@, v@));
        Ok(v)
    }

    fn delete(&mut self, id: i32) -> (r: Result<(), RepositoryError>) {
        let p = match self.position(id) {
            Some(p) => p,
            None => {
                return Err(RepositoryError::NotFound(id));
            },
        };
        let ghost pre = self@;
        let ghost old_labels = self.labels@;
        proof {
            assert forall|k: i32| #[trigger] pre.labels.contains_key(k) implies exists|i: int|
                0 <= i < old_labels.len() && old_labels[i].id == k && pre.labels[k] == old_labels[i].name@ by {
                self.lemma_index_of(self.index_of(k));
            }
        }
        self.labels.remove(p);
        proof {
            let post = self@;
            let expected = pre.labels.remove(id);
            assert forall|i: int| 0 <= i < self.labels.len() implies #[trigger] self.labels[i] == if i < p {
                old_labels[i]
            } else {
                old_labels[i + 1]
            } by {}
            assert forall|k: i32| #[trigger] post.labels.contains_key(k) <==> expected.contains_key(k) by {
                if expected.contains_key(k) {
                    let i = choose|i: int| 0 <= i < old_labels.len() && old_labels[i].id == k && pre.labels[k] == old_labels[i].name@;
                    assert(i != p);
                    if i < p {
                        assert(self.labels[i].id == k);
                    } else {
                        assert(self.labels[i - 1].id == k);
                    }
                }
                if post.labels.contains_key(k) {
                    let i = choose|i: int| 0 <= i < self.labels.len() && #[trigger] self.labels[i].id == k;
                    if i < p {
                        assert(old_labels[i].id == k);
                        assert(old_labels[i].id < old_labels[p as int].id);
                    } else {
                        assert(old_labels[i + 1].id == k);
                        assert(old_labels[p as int].id < old_labels[i + 1].id);
                    }
                }
            }
            assert forall|k: i32| #[trigger] post.labels.contains_key(k) implies post.labels[k] == expected[k] by {
                let i = self.index_of(k);
                self.lemma_index_of(i);
                let j = choose|j: int| 0 <= j < old_labels.len() && old_labels[j].id == k && pre.labels[k] == old_labels[j].name@;
                if i < p {
                    assert(old_labels[i].id == k);
                    if i != j {
                        if i < j { assert(old_labels[i].id < old_labels[j].id); } else { assert(old_labels[j].id < old_labels[i].id); }
                    }
                } else {
                    assert(old_labels[i + 1].id == k);
                    if i + 1 != j {
                        if i + 1 < j { assert(old_labels[i + 1].id < old_labels[j].id); } else { assert(old_labels[j].id < old_labels[i + 1].id); }
                    }
                }
            }
            assert(post.labels =~= expected);
        }
        Ok(())
    }
}

} // verus!
