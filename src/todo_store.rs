use vstd::prelude::*;

use crate::error::{RepositoryError, ValidationError};
use crate::fold::{entity_of, fold_to_entities, has_entity, ids_ascending, labels_of, lemma_fold_one_todo, row_label};
use crate::label::LabelView;
use crate::label::{CreateLabel, Label};
use crate::label_store::{
    label_all_post, label_create_post, label_delete_post, LabelRepository, LabelRepositoryForMemory,
    LabelStoreModel,
};
use crate::todo::{
    entities_view, rows_view, CreateTodo, RowView, Todo, TodoEntity, TodoView, TodoWithLabelRow,
    UpdateTodo,
};
use crate::validate::{length_ok, TODO_TEXT_MAX};

verus! {

/// A row of the join table: the todo `todo_id` carries the label `label_id`.
#[derive(Debug, Clone, Copy, PartialEq, Eq)]
pub struct TodoLabel {
    pub todo_id: i32,
    pub label_id: i32,
}

/// The label ids that the join table gives the todo `id`, in table order.
pub open spec fn label_ids_of(links: Seq<TodoLabel>, id: i32) -> Seq<i32> {
    links.filter(|l: TodoLabel| l.todo_id == id).map_values(|l: TodoLabel| l.label_id)
}

/// The labels that a list of label ids stands for, in its order: an id that
/// names no label stands for nothing, as in an outer join.
pub open spec fn resolve_labels(names: Map<i32, Seq<char>>, ids: Seq<i32>) -> Seq<LabelView> {
    ids.filter_map(
        |id: i32|
            if names.contains_key(id) {
                Some(LabelView { id, name: names[id] })
            } else {
                None
            },
    )
}

/// What the store keeps of a todo: its fields, and the ids of the labels
/// attached to it in the order they were attached.
pub struct StoredTodo {
    pub text: Seq<char>,
    pub completed: bool,
    pub label_ids: Seq<i32>,
}

/// What a todo store holds: each todo by id; the names of the labels that
/// todos can carry, by id; and the id that the next todo will get.
pub struct TodoStoreModel {
    pub todos: Map<i32, StoredTodo>,
    pub label_names: Map<i32, Seq<char>>,
    pub next_id: i32,
}

/// The todo `id` as the store hands it out: its fields, and the labels that
/// its label ids name.
pub open spec fn entity_in(s: TodoStoreModel, id: i32) -> TodoView {
    TodoView {
        id,
        text: s.todos[id].text,
        completed: s.todos[id].completed,
        labels: resolve_labels(s.label_names, s.todos[id].label_ids),
    }
}

/// What a well-formed todo store holds: ids from 1 up to, not including, the
/// next id.
pub open spec fn todo_model_wf(s: TodoStoreModel) -> bool {
    &&& 1 <= s.next_id
    &&& forall|id: i32| #[trigger] s.todos.contains_key(id) ==> 1 <= id < s.next_id
}

/// What `create` does: an empty or overlong text is refused; otherwise the
/// todo gets the next id, which no todo has, is not completed, and is attached
/// to the label ids of the payload. When the ids are used up the store fails.
/// On every failure the store stays as it was.
pub open spec fn todo_create_post(
    pre: TodoStoreModel,
    text: Seq<char>,
    label_ids: Seq<i32>,
    r: Result<TodoEntity, RepositoryError>,
    post: TodoStoreModel,
) -> bool {
    match r {
        Ok(e) => {
            &&& length_ok(text, TODO_TEXT_MAX)
            &&& pre.next_id < i32::MAX
            &&& !pre.todos.contains_key(pre.next_id)
            &&& post == (TodoStoreModel {
                todos: pre.todos.insert(pre.next_id, StoredTodo { text, completed: false, label_ids }),
                label_names: pre.label_names,
                next_id: (pre.next_id + 1) as i32,
            })
            &&& e@ == entity_in(post, pre.next_id)
        },
        Err(RepositoryError::Invalid(v)) => {
            &&& !length_ok(text, TODO_TEXT_MAX)
            &&& (v == ValidationError::Empty <==> text.len() == 0)
            &&& post == pre
        },
        Err(err) => length_ok(text, TODO_TEXT_MAX) && pre.next_id == i32::MAX && err is Unexpected
            && post == pre,
    }
}

/// What `find` returns: the todo `id`, or `NotFound` when there is none.
pub open spec fn todo_find_post(s: TodoStoreModel, id: i32, r: Result<TodoEntity, RepositoryError>) -> bool {
    match r {
        Ok(e) => s.todos.contains_key(id) && e@ == entity_in(s, id),
        Err(err) => !s.todos.contains_key(id) && err == RepositoryError::NotFound(id),
    }
}

/// `es` lists every todo of `s` once, in ascending order of id.
pub open spec fn todos_listed(s: TodoStoreModel, es: Seq<TodoView>) -> bool {
    &&& ids_ascending(es)
    &&& forall|i: int|
        0 <= i < es.len() ==> s.todos.contains_key(#[trigger] es[i].id) && es[i] == entity_in(s, es[i].id)
    &&& forall|id: i32| #[trigger] s.todos.contains_key(id) ==> has_entity(es, id)
}

/// What `all` returns: every todo, in ascending order of id.
pub open spec fn todo_all_post(s: TodoStoreModel, r: Result<Vec<TodoEntity>, RepositoryError>) -> bool {
    match r {
        Ok(v) => todos_listed(s, entities_view(v@)),
        Err(_) => false,
    }
}

/// A todo after an update: each field that the payload holds replaces the old
/// one, and a list of label ids replaces all of its labels.
pub open spec fn updated_stored(old: StoredTodo, p: UpdateTodo) -> StoredTodo {
    StoredTodo {
        text: match p.text {
            Some(t) => t@,
            None => old.text,
        },
        completed: match p.completed {
            Some(c) => c,
            None => old.completed,
        },
        label_ids: match p.labels {
            Some(ids) => ids@,
            None => old.label_ids,
        },
    }
}

/// What `update` does: it refuses a payload whose text is empty or overlong,
/// fails with `NotFound` when there is no todo `id`, and otherwise changes that
/// todo as the payload says. On every failure the store stays as it was.
pub open spec fn todo_update_post(
    pre: TodoStoreModel,
    id: i32,
    p: UpdateTodo,
    r: Result<TodoEntity, RepositoryError>,
    post: TodoStoreModel,
) -> bool {
    match r {
        Ok(e) => {
            &&& p.is_valid()
            &&& pre.todos.contains_key(id)
            &&& post == (TodoStoreModel {
                todos: pre.todos.insert(id, updated_stored(pre.todos[id], p)),
                label_names: pre.label_names,
                next_id: pre.next_id,
            })
            &&& e@ == entity_in(post, id)
        },
        Err(RepositoryError::Invalid(v)) => {
            &&& !p.is_valid()
            &&& (v == ValidationError::Empty <==> (p.text matches Some(t) && t@.len() == 0))
            &&& post == pre
        },
        Err(err) => p.is_valid() && !pre.todos.contains_key(id) && err == RepositoryError::NotFound(id)
            && post == pre,
    }
}

/// What `delete` does: it removes the todo `id` with its labels, or fails with
/// `NotFound` when there is none.
pub open spec fn todo_delete_post(
    pre: TodoStoreModel,
    id: i32,
    r: Result<(), RepositoryError>,
    post: TodoStoreModel,
) -> bool {
    match r {
        Ok(_) => pre.todos.contains_key(id) && post == (TodoStoreModel {
            todos: pre.todos.remove(id),
            label_names: pre.label_names,
            next_id: pre.next_id,
        }),
        Err(err) => !pre.todos.contains_key(id) && err == RepositoryError::NotFound(id) && post == pre,
    }
}

/// A store of todos and of the labels attached to them.
pub trait TodoRepository: View<V = TodoStoreModel> + Sized {
    /// The store's own well-formedness.
    spec fn inv(&self) -> bool;

    /// A well-formed store has a well-formed model.
    proof fn lemma_model_wf(&self)
        requires
            self.inv(),
        ensures
            todo_model_wf(self@),
    ;

    /// Adds a todo with a valid text and the labels whose ids the payload lists.
    fn create(&mut self, todo: CreateTodo) -> (r: Result<TodoEntity, RepositoryError>)
        requires
            old(self).inv(),
        ensures
            final(self).inv(),
            todo_create_post(old(self)@, todo.text@, todo.labels@, r, final(self)@),
    ;

    /// The todo `id` with its labels.
    fn find(&self, id: i32) -> (r: Result<TodoEntity, RepositoryError>)
        requires
            self.inv(),
        ensures
            todo_find_post(self@, id, r),
    ;

    /// All todos with their labels, in ascending order of id.
    fn all(&self) -> (r: Result<Vec<TodoEntity>, RepositoryError>)
        requires
            self.inv(),
        ensures
            todo_all_post(self@, r),
    ;

    /// Removes the todo `id` and its attachments to labels.
    fn delete(&mut self, id: i32) -> (r: Result<(), RepositoryError>)
        requires
            old(self).inv(),
        ensures
            final(self).inv(),
            todo_delete_post(old(self)@, id, r, final(self)@),
    ;

    /// Changes the fields of the todo `id` that the payload holds.
    fn update(&mut self, id: i32, todo: UpdateTodo) -> (r: Result<TodoEntity, RepositoryError>)
        requires
            old(self).inv(),
        ensures
            final(self).inv(),
            todo_update_post(old(self)@, id, todo, r, final(self)@),
    ;
}

/// A todo created without labels is found again under the id it was given,
/// with the text it was created with, not completed and without labels.
pub proof fn lemma_create_then_find(
    s0: TodoStoreModel,
    text: Seq<char>,
    r1: Result<TodoEntity, RepositoryError>,
    s1: TodoStoreModel,
    r2: Result<TodoEntity, RepositoryError>,
)
    requires
        todo_create_post(s0, text, Seq::<i32>::empty(), r1, s1),
        r1 is Ok,
        todo_find_post(s1, r1->Ok_0.id, r2),
    ensures
        r2 matches Ok(e) && e@ == (TodoView {
            id: r1->Ok_0.id,
            text,
            completed: false,
            labels: Seq::<LabelView>::empty(),
        }),
{
    assert(resolve_labels(s0.label_names, Seq::<i32>::empty()) =~= Seq::<LabelView>::empty());
    assert(s1.todos.contains_key(s0.next_id));
}

/// Todos get the ids 1, 2, ... in the order they are created, in a fresh
/// store; labels created in between do not change that.
pub proof fn lemma_sequential_ids(
    s0: TodoStoreModel,
    text1: Seq<char>,
    labels1: Seq<i32>,
    r1: Result<TodoEntity, RepositoryError>,
    s1: TodoStoreModel,
    s1_labelled: TodoStoreModel,
    text2: Seq<char>,
    labels2: Seq<i32>,
    r2: Result<TodoEntity, RepositoryError>,
    s2: TodoStoreModel,
)
    requires
        s0.next_id == 1,
        length_ok(text1, TODO_TEXT_MAX),
        length_ok(text2, TODO_TEXT_MAX),
        todo_create_post(s0, text1, labels1, r1, s1),
        s1_labelled.next_id == s1.next_id,
        todo_create_post(s1_labelled, text2, labels2, r2, s2),
    ensures
        r1 matches Ok(e) && e.id == 1,
        r2 matches Ok(e) && e.id == 2,
{
}

/// An update changes only the fields that its payload holds: the others keep
/// the values that the todo had.
pub proof fn lemma_partial_update(
    s0: TodoStoreModel,
    id: i32,
    p: UpdateTodo,
    r: Result<TodoEntity, RepositoryError>,
    s1: TodoStoreModel,
)
    requires
        p.is_valid(),
        s0.todos.contains_key(id),
        todo_update_post(s0, id, p, r, s1),
    ensures
        r matches Ok(e) && e@.id == id,
        r matches Ok(e) && (p.text is None ==> e@.text == entity_in(s0, id).text),
        r matches Ok(e) && (p.completed is None ==> e@.completed == entity_in(s0, id).completed),
        r matches Ok(e) && (p.labels is None ==> e@.labels == entity_in(s0, id).labels),
{
}

/// After a todo is deleted it is not found any more; deleting a todo that is
/// not there fails with `NotFound`.
pub proof fn lemma_delete_then_find(
    s0: TodoStoreModel,
    id: i32,
    r1: Result<(), RepositoryError>,
    s1: TodoStoreModel,
    r2: Result<TodoEntity, RepositoryError>,
)
    requires
        todo_delete_post(s0, id, r1, s1),
        todo_find_post(s1, id, r2),
    ensures
        r2 == Err::<TodoEntity, RepositoryError>(RepositoryError::NotFound(id)),
        !s0.todos.contains_key(id) ==> r1 == Err::<(), RepositoryError>(RepositoryError::NotFound(id)),
{
}

proof fn lemma_label_ids_push(links: Seq<TodoLabel>, l: TodoLabel, id: i32)
    ensures
        label_ids_of(links.push(l), id) == if l.todo_id == id {
            label_ids_of(links, id).push(l.label_id)
        } else {
            label_ids_of(links, id)
        },
{
    reveal(Seq::filter);
    assert(links.push(l).drop_last() =~= links);
    let f = links.filter(|x: TodoLabel| x.todo_id == id);
    if l.todo_id == id {
        assert(f.push(l).map_values(|x: TodoLabel| x.label_id) =~= f.map_values(
            |x: TodoLabel| x.label_id,
        ).push(l.label_id));
    }
}

proof fn lemma_label_ids_take_succ(links: Seq<TodoLabel>, i: int, id: i32)
    requires
        0 <= i < links.len(),
    ensures
        label_ids_of(links.take(i + 1), id) == if links[i].todo_id == id {
            label_ids_of(links.take(i), id).push(links[i].label_id)
        } else {
            label_ids_of(links.take(i), id)
        },
{
    assert(links.take(i + 1) =~= links.take(i).push(links[i]));
    lemma_label_ids_push(links.take(i), links[i], id);
}

proof fn lemma_resolve_push(names: Map<i32, Seq<char>>, ids: Seq<i32>, x: i32)
    ensures
        resolve_labels(names, ids.push(x)) == if names.contains_key(x) {
            resolve_labels(names, ids).push(LabelView { id: x, name: names[x] })
        } else {
            resolve_labels(names, ids)
        },
{
    assert(ids.push(x).drop_last() =~= ids);
    assert(ids.push(x).last() == x);
}

proof fn lemma_labels_of_push(rows: Seq<RowView>, r: RowView)
    ensures
        labels_of(rows.push(r)) == match row_label(r) {
            Some(l) => labels_of(rows).push(l),
            None => labels_of(rows),
        },
{
    assert(rows.push(r).drop_last() =~= rows);
    assert(rows.push(r).last() == r);
}

/// Todos held in memory, in ascending order of id, with the join table and the
/// labels that it refers to.
pub struct TodoRepositoryMemory {
    todos: Vec<Todo>,
    todo_labels: Vec<TodoLabel>,
    next_id: i32,
    labels: LabelRepositoryForMemory,
}

impl View for TodoRepositoryMemory {
    type V = TodoStoreModel;

    closed spec fn view(&self) -> TodoStoreModel {
        TodoStoreModel {
            todos: Map::new(
                |id: i32| exists|i: int| 0 <= i < self.todos.len() && #[trigger] self.todos[i].id == id,
                |id: i32| self.stored_of(self.todos[self.index_of(id)]),
            ),
            label_names: self.labels@.labels,
            next_id: self.next_id,
        }
    }
}

impl TodoRepositoryMemory {
    /// Where the todo `id` stands in the vector.
    closed spec fn index_of(&self, id: i32) -> int {
        choose|i: int| 0 <= i < self.todos.len() && #[trigger] self.todos[i].id == id
    }

    /// What the store keeps of the todo `t`: its fields and the label ids that
    /// the join table gives it.
    closed spec fn stored_of(&self, t: Todo) -> StoredTodo {
        StoredTodo {
            text: t.text@,
            completed: t.completed,
            label_ids: label_ids_of(self.todo_labels@, t.id),
        }
    }

    /// A stored todo together with the labels that the join table gives it.
    closed spec fn hydrated(&self, t: Todo) -> TodoView {
        TodoView {
            id: t.id,
            text: t.text@,
            completed: t.completed,
            labels: resolve_labels(self.labels@.labels, label_ids_of(self.todo_labels@, t.id)),
        }
    }

    /// An empty store; the first todo gets id 1.
    pub fn new() -> (r: TodoRepositoryMemory)
        ensures
            r.inv(),
            r@.todos == Map::<i32, StoredTodo>::empty(),
            r@.label_names == Map::<i32, Seq<char>>::empty(),
            r@.next_id == 1,
            r.label_store() == (LabelStoreModel { labels: Map::empty(), next_id: 1 }),
    {
        let r = TodoRepositoryMemory {
            todos: Vec::new(),
            todo_labels: Vec::new(),
            next_id: 1,
            labels: LabelRepositoryForMemory::new(),
        };
        assert(r@.todos =~= Map::empty());
        r
    }

    proof fn lemma_index_of(&self, i: int)
        requires
            self.inv(),
            0 <= i < self.todos.len(),
        ensures
            self.index_of(self.todos[i].id) == i,
            self@.todos.contains_key(self.todos[i].id),
            self@.todos[self.todos[i].id] == self.stored_of(self.todos[i]),
            entity_in(self@, self.todos[i].id) == self.hydrated(self.todos[i]),
    {
        let id = self.todos[i].id;
        assert(self@.todos.contains_key(id));
        let j = self.index_of(id);
        if j != i {
            if j < i {
                assert(self.todos[j].id < self.todos[i].id);
            } else {
                assert(self.todos[i].id < self.todos[j].id);
            }
        }
    }

    /// Where the todo `id` stands, if there is one.
    fn position(&self, id: i32) -> (r: Option<usize>)
        requires
            self.inv(),
        ensures
            r is None <==> !self@.todos.contains_key(id),
            r matches Some(p) ==> p < self.todos.len() && self.todos[p as int].id == id,
    {
        let mut p: usize = 0;
        while p < self.todos.len()
            invariant
                p <= self.todos.len(),
                forall|i: int| 0 <= i < p ==> self.todos[i].id != id,
            decreases self.todos.len() - p,
        {
            if self.todos[p].id == id {
                return Some(p);
            }
            p = p + 1;
        }
        proof {
            if self@.todos.contains_key(id) {
                let i = choose|i: int| 0 <= i < self.todos.len() && #[trigger] self.todos[i].id == id;
                assert(self.todos[i].id != id);
            }
        }
        None
    }

    /// The rows that the outer join of the todo `t` with its labels gives: one
    /// for each of its attachments, without label fields where the label is
    /// gone, or a single row without label fields when it has none.
    fn joined_rows(&self, t: &Todo) -> (rows: Vec<TodoWithLabelRow>)
        requires
            self.inv(),
        ensures
            rows.len() > 0,
            forall|i: int|
                0 <= i < rows.len() ==> (#[trigger] rows[i]).id == t.id && rows[i].text == t.text
                    && rows[i].completed == t.completed,
            labels_of(rows_view(rows@)) == resolve_labels(
                self@.label_names,
                label_ids_of(self.todo_labels@, t.id),
            ),
    {
        let ghost names = self@.label_names;
        let ghost links = self.todo_labels@;
        let mut rows: Vec<TodoWithLabelRow> = Vec::new();
        let mut i: usize = 0;
        while i < self.todo_labels.len()
            invariant
                self.inv(),
                names == self@.label_names,
                links == self.todo_labels@,
                i <= self.todo_labels.len(),
                forall|j: int|
                    0 <= j < rows.len() ==> (#[trigger] rows[j]).id == t.id && rows[j].text == t.text
                        && rows[j].completed == t.completed,
                labels_of(rows_view(rows@)) == resolve_labels(names, label_ids_of(links.take(i as int), t.id)),
            decreases self.todo_labels.len() - i,
        {
            let link = self.todo_labels[i];
            proof {
                lemma_label_ids_take_succ(links, i as int, t.id);
                lemma_resolve_push(names, label_ids_of(links.take(i as int), t.id), link.label_id);
            }
            if link.todo_id == t.id {
                let ghost before = rows_view(rows@);
                let row = match self.labels.find(link.label_id) {
                    Some(l) => TodoWithLabelRow {
                        id: t.id,
                        text: t.text.clone(),
                        completed: t.completed,
                        label_id: Some(l.id),
                        label_name: Some(l.name),
                    },
                    None => TodoWithLabelRow {
                        id: t.id,
                        text: t.text.clone(),
                        completed: t.completed,
                        label_id: None,
                        label_name: None,
                    },
                };
                rows.push(row);
                proof {
                    lemma_labels_of_push(before, row@);
                    assert(rows_view(rows@) =~= before.push(row@));
                }
            }
            i = i + 1;
        }
        assert(links.take(links.len() as int) =~= links);
        if rows.len() == 0 {
            let row = TodoWithLabelRow {
                id: t.id,
                text: t.text.clone(),
                completed: t.completed,
                label_id: None,
                label_name: None,
            };
            let ghost before = rows_view(rows@);
            rows.push(row);
            proof {
                lemma_labels_of_push(before, row@);
                assert(rows_view(rows@) =~= before.push(row@));
            }
        }
        rows
    }

    /// The todo `t` with its labels, read back through the outer join and the
    /// row folding.
    fn hydrate(&self, t: &Todo) -> (e: TodoEntity)
        requires
            self.inv(),
        ensures
            e@ == self.hydrated(*t),
    {
        let rows = self.joined_rows(t);
        let ghost rv = rows_view(rows@);
        assert(forall|i: int| 0 <= i < rv.len() ==> #[trigger] rv[i].id == rv[0].id);
        let mut es = fold_to_entities(rows);
        let ghost folded = entities_view(es@);
        proof {
            lemma_fold_one_todo(rv, folded);
            assert(rv[0] == rows@[0]@);
            assert(entity_of(rv) == self.hydrated(*t));
            assert(folded.len() == 1);
            assert(folded.len() == es@.len());
        }
        assert(es.len() == 1);
        let ghost first = es@[0];
        let e = es.remove(0);
        assert(e == first);
        assert(folded[0] == first@);
        e
    }
}

proof fn lemma_label_ids_absent(links: Seq<TodoLabel>, id: i32)
    requires
        forall|i: int| 0 <= i < links.len() ==> (#[trigger] links[i]).todo_id != id,
    ensures
        label_ids_of(links, id) == Seq::<i32>::empty(),
    decreases links.len(),
{
    reveal(Seq::filter);
    if links.len() > 0 {
        lemma_label_ids_absent(links.drop_last(), id);
    }
    assert(label_ids_of(links, id) =~= Seq::<i32>::empty());
}

impl TodoRepositoryMemory {
    /// Sets the labels of the todo `id` to `ids`: its rows of the join table
    /// are removed and one row is added for each of `ids`, in their order.
    fn set_labels_of(&mut self, id: i32, ids: &Vec<i32>)
        requires
            old(self).inv(),
            id < old(self).next_id,
        ensures
            final(self).inv(),
            final(self).todos == old(self).todos,
            final(self).labels == old(self).labels,
            final(self).next_id == old(self).next_id,
            forall|k: i32|
                #[trigger] label_ids_of(final(self).todo_labels@, k) == if k == id {
                    ids@
                } else {
                    label_ids_of(old(self).todo_labels@, k)
                },
    {
        let ghost links = self.todo_labels@;
        let mut kept: Vec<TodoLabel> = Vec::new();
        let mut i: usize = 0;
        while i < self.todo_labels.len()
            invariant
                self.inv(),
                links == self.todo_labels@,
                i <= self.todo_labels.len(),
                forall|j: int| 0 <= j < kept.len() ==> (#[trigger] kept[j]).todo_id < self.next_id,
                forall|k: i32|
                    #[trigger] label_ids_of(kept@, k) == if k == id {
                        Seq::<i32>::empty()
                    } else {
                        label_ids_of(links.take(i as int), k)
                    },
            decreases self.todo_labels.len() - i,
        {
            let link = self.todo_labels[i];
            let ghost before = kept@;
            if link.todo_id != id {
                kept.push(link);
            }
            assert forall|k: i32|
                #[trigger] label_ids_of(kept@, k) == if k == id {
                    Seq::<i32>::empty()
                } else {
                    label_ids_of(links.take(i + 1), k)
                } by {
                lemma_label_ids_take_succ(links, i as int, k);
                if link.todo_id != id {
                    lemma_label_ids_push(before, link, k);
                }
            }
            i = i + 1;
        }
        assert(links.take(links.len() as int) =~= links);
        let mut j: usize = 0;
        while j < ids.len()
            invariant
                self.inv(),
                links == self.todo_labels@,
                id < self.next_id,
                j <= ids.len(),
                forall|n: int| 0 <= n < kept.len() ==> (#[trigger] kept[n]).todo_id < self.next_id,
                forall|k: i32|
                    #[trigger] label_ids_of(kept@, k) == if k == id {
                        ids@.take(j as int)
                    } else {
                        label_ids_of(links, k)
                    },
            decreases ids.len() - j,
        {
            let link = TodoLabel { todo_id: id, label_id: ids[j] };
            let ghost before = kept@;
            kept.push(link);
            assert forall|k: i32|
                #[trigger] label_ids_of(kept@, k) == if k == id {
                    ids@.take(j + 1)
                } else {
                    label_ids_of(links, k)
                } by {
                lemma_label_ids_push(before, link, k);
                assert(ids@.take(j + 1) =~= ids@.take(j as int).push(ids[j as int]));
            }
            j = j + 1;
        }
        assert(ids@.take(ids.len() as int) =~= ids@);
        self.todo_labels = kept;
    }
}

impl TodoRepositoryMemory {
    /// The labels that the store's todos can carry.
    pub closed spec fn label_store(&self) -> LabelStoreModel {
        self.labels@
    }

    proof fn lemma_labels_only(&self, other: &TodoRepositoryMemory)
        requires
            self.todos == other.todos,
            self.todo_labels == other.todo_labels,
            self.next_id == other.next_id,
        ensures
            other@ == (TodoStoreModel {
                todos: self@.todos,
                label_names: other.label_store().labels,
                next_id: self@.next_id,
            }),
    {
        assert(other@.todos =~= self@.todos);
    }

    /// Adds a label, unless one with the same name exists. The todos keep
    /// the label ids they have; those that name the new label now show it.
    pub fn create_label(&mut self, label: CreateLabel) -> (r: Result<Label, RepositoryError>)
        requires
            old(self).inv(),
        ensures
            final(self).inv(),
            label_create_post(old(self).label_store(), label.name@, r, final(self).label_store()),
            final(self)@ == (TodoStoreModel {
                todos: old(self)@.todos,
                label_names: final(self).label_store().labels,
                next_id: old(self)@.next_id,
            }),
    {
        let ghost before = *self;
        let r = self.labels.create(label);
        proof {
            before.lemma_labels_only(self);
        }
        r
    }

    /// All labels, in ascending order of id.
    pub fn all_labels(&self) -> (r: Result<Vec<Label>, RepositoryError>)
        requires
            self.inv(),
        ensures
            label_all_post(self.label_store(), r),
    {
        self.labels.all()
    }

    /// Removes the label `id`. The join table keeps the rows that point at it:
    /// as in an outer join, they no longer show a label.
    pub fn delete_label(&mut self, id: i32) -> (r: Result<(), RepositoryError>)
        requires
            old(self).inv(),
        ensures
            final(self).inv(),
            label_delete_post(old(self).label_store(), id, r, final(self).label_store()),
            final(self)@ == (TodoStoreModel {
                todos: old(self)@.todos,
                label_names: final(self).label_store().labels,
                next_id: old(self)@.next_id,
            }),
    {
        let ghost before = *self;
        let r = self.labels.delete(id);
        proof {
            before.lemma_labels_only(self);
        }
        r
    }
}

impl TodoRepository for TodoRepositoryMemory {
    closed spec fn inv(&self) -> bool {
        &&& 1 <= self.next_id
        &&& self.labels.inv()
        &&& forall|i: int|
            0 <= i < self.todos.len() ==> 1 <= #[trigger] self.todos[i].id < self.next_id
                && length_ok(self.todos[i].text@, TODO_TEXT_MAX)
        &&& forall|i: int, j: int| 0 <= i < j < self.todos.len() ==> self.todos[i].id < self.todos[j].id
        &&& forall|i: int| 0 <= i < self.todo_labels.len() ==> #[trigger] self.todo_labels[i].todo_id < self.next_id
    }

    proof fn lemma_model_wf(&self) {
        assert forall|id: i32| #[trigger] self@.todos.contains_key(id) implies 1 <= id < self@.next_id by {
            self.lemma_index_of(self.index_of(id));
        }
    }

    fn create(&mut self, todo: CreateTodo) -> (r: Result<TodoEntity, RepositoryError>) {
        match todo.validate() {
            Err(v) => {
                return Err(RepositoryError::Invalid(v));
            },
            Ok(()) => {},
        }
        proof {
            self.lemma_model_wf();
        }
        if self.next_id == i32::MAX {
            return Err(RepositoryError::Unexpected("no todo id is left".to_string()));
        }
        let ghost before = *self;
        let ghost pre = self@;
        let id = self.next_id;
        let t = Todo { id, text: todo.text, completed: false };
        let ghost links = self.todo_labels@;
        proof {
            lemma_label_ids_absent(links, id);
        }
        let mut i: usize = 0;
        while i < todo.labels.len()
            invariant
                before.inv(),
                self.todos == before.todos,
                self.labels == before.labels,
                self.next_id == before.next_id,
                id == before.next_id,
                links == before.todo_labels@,
                i <= todo.labels.len(),
                forall|n: int| 0 <= n < self.todo_labels.len() ==> #[trigger] self.todo_labels[n].todo_id <= id,
                forall|k: i32|
                    #[trigger] label_ids_of(self.todo_labels@, k) == if k == id {
                        todo.labels@.take(i as int)
                    } else {
                        label_ids_of(links, k)
                    },
            decreases todo.labels.len() - i,
        {
            let link = TodoLabel { todo_id: id, label_id: todo.labels[i] };
            let ghost prev = self.todo_labels@;
            self.todo_labels.push(link);
            assert forall|k: i32|
                #[trigger] label_ids_of(self.todo_labels@, k) == if k == id {
                    todo.labels@.take(i + 1)
                } else {
                    label_ids_of(links, k)
                } by {
                lemma_label_ids_push(prev, link, k);
                assert(todo.labels@.take(i + 1) =~= todo.labels@.take(i as int).push(todo.labels[i as int]));
            }
            i = i + 1;
        }
        assert(todo.labels@.take(todo.labels.len() as int) =~= todo.labels@);
        self.todos.push(t.duplicate());
        self.next_id = id + 1;
        proof {
            assert(length_ok(t.text@, TODO_TEXT_MAX));
            assert(self.todos[self.todos.len() - 1] == t);
        }
        let e = self.hydrate(&t);
        proof {
            let expected = pre.todos.insert(
                id,
                StoredTodo { text: todo.text@, completed: false, label_ids: todo.labels@ },
            );
            let post = self@;
            assert forall|k: i32| #[trigger] post.todos.contains_key(k) <==> expected.contains_key(k) by {
                if pre.todos.contains_key(k) {
                    let n = before.index_of(k);
                    assert(self.todos[n] == before.todos[n]);
                }
                if k == id {
                    assert(self.todos[self.todos.len() - 1].id == id);
                }
                if post.todos.contains_key(k) {
                    let n = self.index_of(k);
                    if n < before.todos.len() {
                        assert(before.todos[n].id == k);
                    }
                }
            }
            assert forall|k: i32| #[trigger] post.todos.contains_key(k) implies post.todos[k] == expected[k] by {
                let n = self.index_of(k);
                self.lemma_index_of(n);
                if n < before.todos.len() {
                    before.lemma_index_of(n);
                    assert(self.todos[n] == before.todos[n]);
                    assert(k < id);
                } else {
                    assert(self.todos[n] == t);
                }
            }
            assert(post.todos =~= expected);
            self.lemma_index_of(self.todos.len() - 1);
        }
        Ok(e)
    }

    fn find(&self, id: i32) -> (r: Result<TodoEntity, RepositoryError>) {
        match self.position(id) {
            Some(p) => {
                proof {
                    self.lemma_index_of(p as int);
                }
                Ok(self.hydrate(&self.todos[p]))
            },
            None => Err(RepositoryError::NotFound(id)),
        }
    }

    fn all(&self) -> (r: Result<Vec<TodoEntity>, RepositoryError>) {
        let mut v: Vec<TodoEntity> = Vec::new();
        let mut i: usize = 0;
        while i < self.todos.len()
            invariant
                self.inv(),
                i <= self.todos.len(),
                v.len() == i,
                forall|j: int| 0 <= j < i ==> (#[trigger] v[j])@ == self.hydrated(self.todos[j]),
            decreases self.todos.len() - i,
        {
            let e = self.hydrate(&self.todos[i]);
            v.push(e);
            i = i + 1;
        }
        let ghost es = entities_view(v@);
        assert forall|a: int| 0 <= a < es.len() implies self@.todos.contains_key(#[trigger] es[a].id)
            && es[a] == entity_in(self@, es[a].id) by {
            self.lemma_index_of(a);
            assert(es[a] == v[a]@);
        }
        assert forall|id: i32| #[trigger] self@.todos.contains_key(id) implies has_entity(es, id) by {
            let n = self.index_of(id);
            assert(es[n] == v[n]@);
            assert(es[n].id == id);
        }
        assert forall|a: int, b: int| 0 <= a < b < es.len() implies es[a].id < es[b].id by {
            assert(es[a] == v[a]@);
            assert(es[b] == v[b]@);
        }
        Ok(v)
    }

    fn delete(&mut self, id: i32) -> (r: Result<(), RepositoryError>) {
        let p = match self.position(id) {
            Some(p) => p,
            None => {
                return Err(RepositoryError::NotFound(id));
            },
        };
        let ghost before = *self;
        let ghost pre = self@;
        let empty: Vec<i32> = Vec::new();
        self.set_labels_of(id, &empty);
        self.todos.remove(p);
        proof {
            let expected = pre.todos.remove(id);
            let post = self@;
            assert forall|n: int| 0 <= n < self.todos.len() implies #[trigger] self.todos[n] == if n < p {
                before.todos[n]
            } else {
                before.todos[n + 1]
            } by {}
            assert forall|k: i32| #[trigger] post.todos.contains_key(k) <==> expected.contains_key(k) by {
                if expected.contains_key(k) {
                    let n = before.index_of(k);
                    assert(n != p);
                    if n < p {
                        assert(self.todos[n].id == k);
                    } else {
                        assert(self.todos[n - 1].id == k);
                    }
                }
                if post.todos.contains_key(k) {
                    let n = self.index_of(k);
                    if n < p {
                        assert(before.todos[n].id == k);
                        assert(before.todos[n].id < before.todos[p as int].id);
                    } else {
                        assert(before.todos[n + 1].id == k);
                        assert(before.todos[p as int].id < before.todos[n + 1].id);
                    }
                }
            }
            assert forall|k: i32| #[trigger] post.todos.contains_key(k) implies post.todos[k] == expected[k] by {
                let n = self.index_of(k);
                let m = if n < p { n } else { n + 1 };
                assert(before.todos[m] == self.todos[n]);
                before.lemma_index_of(m);
                assert(k != id);
                assert(label_ids_of(self.todo_labels@, k) == label_ids_of(before.todo_labels@, k));
            }
            assert(post.todos =~= expected);
        }
        Ok(())
    }

    fn update(&mut self, id: i32, todo: UpdateTodo) -> (r: Result<TodoEntity, RepositoryError>) {
        match todo.validate() {
            Err(v) => {
                return Err(RepositoryError::Invalid(v));
            },
            Ok(()) => {},
        }
        let p = match self.position(id) {
            Some(p) => p,
            None => {
                return Err(RepositoryError::NotFound(id));
            },
        };
        let ghost before = *self;
        let ghost pre = self@;
        let ghost payload = todo;
        proof {
            self.lemma_index_of(p as int);
        }
        let t = todo.merge(&self.todos[p]);
        self.todos.set(p, t.duplicate());
        assert(self.todos@ == before.todos@.update(p as int, t));
        match todo.labels {
            Some(ids) => {
                self.set_labels_of(id, &ids);
            },
            None => {},
        }
        let e = self.hydrate(&t);
        proof {
            before.lemma_index_of(p as int);
            let expected = pre.todos.insert(id, updated_stored(pre.todos[id], payload));
            let post = self@;
            assert forall|k: i32| #[trigger] post.todos.contains_key(k) <==> expected.contains_key(k) by {
                if pre.todos.contains_key(k) {
                    let n = before.index_of(k);
                    assert(self.todos[n].id == k);
                }
                if post.todos.contains_key(k) {
                    let n = self.index_of(k);
                    assert(before.todos[n].id == k);
                }
            }
            assert forall|k: i32| #[trigger] post.todos.contains_key(k) implies post.todos[k] == expected[k] by {
                let n = self.index_of(k);
                self.lemma_index_of(n);
                before.lemma_index_of(n);
                if n != p {
                    assert(self.todos[n] == before.todos[n]);
                    assert(k != id);
                    assert(label_ids_of(self.todo_labels@, k) == label_ids_of(before.todo_labels@, k));
                } else {
                    assert(self.todos[n] == t);
                }
            }
            assert(post.todos =~= expected);
            self.lemma_index_of(p as int);
        }
        Ok(e)
    }
}

} // verus!
