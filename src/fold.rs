use vstd::prelude::*;

use crate::error::RepositoryError;
use crate::label::{labels_view, Label, LabelView};
use crate::todo::{entities_view, rows_view, RowView, TodoEntity, TodoView, TodoWithLabelRow};

verus! {

/// The label a row carries: present only when both its id and its name are.
pub open spec fn row_label(r: RowView) -> Option<LabelView> {
    if r.label_id is Some && r.label_name is Some {
        Some(LabelView { id: r.label_id.unwrap(), name: r.label_name.unwrap() })
    } else {
        None
    }
}

/// The labels that a run of rows carries, in row order.
pub open spec fn labels_of(rows: Seq<RowView>) -> Seq<LabelView> {
    rows.filter_map(|r: RowView| row_label(r))
}

/// The entity that the rows of one todo stand for: the todo's fields from its
/// first row, and the labels of all of its rows.
pub open spec fn entity_of(group: Seq<RowView>) -> TodoView {
    TodoView {
        id: group[0].id,
        text: group[0].text,
        completed: group[0].completed,
        labels: labels_of(group),
    }
}

/// The rows that belong to the todo `id`, in their order.
pub open spec fn group_of(rows: Seq<RowView>, id: i32) -> Seq<RowView> {
    rows.filter(|r: RowView| r.id == id)
}

/// Some row belongs to the todo `id`.
pub open spec fn has_row(rows: Seq<RowView>, id: i32) -> bool {
    exists|i: int| 0 <= i < rows.len() && rows[i].id == id
}

/// Some entity has the id `id`.
pub open spec fn has_entity(es: Seq<TodoView>, id: i32) -> bool {
    exists|i: int| 0 <= i < es.len() && es[i].id == id
}

/// The ids of the entities rise strictly.
pub open spec fn ids_ascending(es: Seq<TodoView>) -> bool {
    forall|i: int, j: int| 0 <= i < j < es.len() ==> es[i].id < es[j].id
}

/// `es` is what the rows fold to: one entity per todo id of the rows, in
/// ascending order of id, each built from the rows of that id.
pub open spec fn is_folding(rows: Seq<RowView>, es: Seq<TodoView>) -> bool {
    &&& ids_ascending(es)
    &&& forall|id: i32| has_row(rows, id) <==> #[trigger] has_entity(es, id)
    &&& forall|i: int| 0 <= i < es.len() ==> #[trigger] es[i] == entity_of(group_of(rows, es[i].id))
}

/// One row for each label of an entity, carrying the todo's fields and that
/// label.
pub open spec fn label_rows(e: TodoView) -> Seq<RowView> {
    e.labels.map_values(
        |l: LabelView|
            RowView {
                id: e.id,
                text: e.text,
                completed: e.completed,
                label_id: Some(l.id),
                label_name: Some(l.name),
            },
    )
}

/// The rows that stand for an entity, as the outer join gives them: one for
/// each of its labels, or a single row without label fields when it has none.
pub open spec fn flatten_spec(e: TodoView) -> Seq<RowView> {
    if e.labels.len() == 0 {
        seq![RowView { id: e.id, text: e.text, completed: e.completed, label_id: None, label_name: None }]
    } else {
        label_rows(e)
    }
}

proof fn lemma_group_of_take_succ(rows: Seq<RowView>, id: i32, i: int)
    requires
        0 <= i < rows.len(),
    ensures
        group_of(rows.take(i + 1), id) == if rows[i].id == id {
            group_of(rows.take(i), id).push(rows[i])
        } else {
            group_of(rows.take(i), id)
        },
{
    reveal(Seq::filter);
    assert(rows.take(i + 1).drop_last() =~= rows.take(i));
}

proof fn lemma_group_of_nonempty(rows: Seq<RowView>, id: i32)
    requires
        has_row(rows, id),
    ensures
        group_of(rows, id).len() > 0,
        forall|j: int| 0 <= j < group_of(rows, id).len() ==> #[trigger] group_of(rows, id)[j].id == id,
{
    let i = choose|i: int| 0 <= i < rows.len() && rows[i].id == id;
    rows.lemma_filter_contains(|r: RowView| r.id == id, i);
    assert forall|j: int| 0 <= j < group_of(rows, id).len() implies #[trigger] group_of(rows, id)[j].id == id by {
        rows.lemma_filter_pred(|r: RowView| r.id == id, j);
    }
}

impl TodoEntity {
    /// Builds the entity that a group of rows of one todo stands for; `None`
    /// for an empty group.
    pub fn maybe_from(value: Vec<TodoWithLabelRow>) -> (r: Option<TodoEntity>)
        ensures
            r is None <==> value@.len() == 0,
            r matches Some(e) ==> e@ == entity_of(rows_view(value@)),
    {
        let ghost rows = rows_view(value@);
        let mut labels: Vec<Label> = Vec::new();
        let mut i: usize = 0;
        while i < value.len()
            invariant
                i <= value.len(),
                rows == rows_view(value@),
                labels_view(labels@) == labels_of(rows.take(i as int)),
            decreases value.len() - i,
        {
            let row = &value[i];
            proof {
                rows.lemma_filter_map_take_succ(|r: RowView| row_label(r), i as int);
            }
            match (&row.label_id, &row.label_name) {
                (Some(id), Some(name)) => {
                    labels.push(Label { id: *id, name: name.clone() });
                },
                _ => {},
            }
            assert(labels_view(labels@) =~= labels_of(rows.take(i + 1)));
            i = i + 1;
        }
        assert(rows.take(value.len() as int) =~= rows);
        if value.len() == 0 {
            None
        } else {
            let first = &value[0];
            Some(
                TodoEntity {
                    id: first.id,
                    text: first.text.clone(),
                    completed: first.completed,
                    labels,
                },
            )
        }
    }
}

/// The todo ids of the rows, each once, in ascending order.
fn sorted_ids(rows: &Vec<TodoWithLabelRow>) -> (ids: Vec<i32>)
    ensures
        forall|a: int, b: int| 0 <= a < b < ids.len() ==> ids[a] < ids[b],
        forall|id: i32| has_row(rows_view(rows@), id) <==> #[trigger] ids@.contains(id),
{
    let ghost rv = rows_view(rows@);
    let mut ids: Vec<i32> = Vec::new();
    let mut i: usize = 0;
    while i < rows.len()
        invariant
            i <= rows.len(),
            rv == rows_view(rows@),
            forall|a: int, b: int| 0 <= a < b < ids.len() ==> ids[a] < ids[b],
            forall|id: i32| has_row(rv.take(i as int), id) <==> #[trigger] ids@.contains(id),
        decreases rows.len() - i,
    {
        let id = rows[i].id;
        let mut p: usize = 0;
        while p < ids.len() && ids[p] < id
            invariant
                p <= ids.len(),
                forall|a: int| 0 <= a < p ==> ids[a] < id,
            decreases ids.len() - p,
        {
            p = p + 1;
        }
        let ghost before = ids@;
        if p < ids.len() && ids[p] == id {
        } else {
            ids.insert(p, id);
            assert forall|a: int, b: int| 0 <= a < b < ids.len() implies ids[a] < ids[b] by {
                if b < p {
                } else if b == p {
                } else if a < p {
                    assert(ids[b] == before[b - 1]);
                } else if a == p {
                    assert(ids[b] == before[b - 1]);
                    if p < before.len() {
                        assert(before[p as int] >= id);
                    }
                } else {
                    assert(ids[b] == before[b - 1]);
                    assert(ids[a] == before[a - 1]);
                }
            }
        }
        let ghost t0 = rv.take(i as int);
        let ghost t1 = rv.take(i + 1);
        assert forall|k: i32| has_row(t1, k) <==> #[trigger] ids@.contains(k) by {
            if has_row(t1, k) {
                let j = choose|j: int| 0 <= j < t1.len() && #[trigger] t1[j].id == k;
                if j < i {
                    assert(t0[j].id == k);
                    assert(has_row(t0, k));
                    assert(before.contains(k));
                    let q = choose|q: int| 0 <= q < before.len() && #[trigger] before[q] == k;
                    if q < p {
                        assert(ids[q] == k);
                    } else {
                        assert(ids[q + (ids.len() - before.len())] == k);
                    }
                } else {
                    assert(ids[p as int] == k);
                }
            }
            if ids@.contains(k) {
                let q = choose|q: int| 0 <= q < ids.len() && #[trigger] ids[q] == k;
                if ids@ == before {
                    assert(before.contains(k));
                    assert(has_row(t0, k));
                    let j = choose|j: int| 0 <= j < t0.len() && #[trigger] t0[j].id == k;
                    assert(t1[j].id == k);
                } else if q == p {
                    assert(t1[i as int].id == k);
                } else {
                    let q2 = if q < p { q } else { q - 1 };
                    assert(before[q2] == k);
                    assert(before.contains(k));
                    assert(has_row(t0, k));
                    let j = choose|j: int| 0 <= j < t0.len() && #[trigger] t0[j].id == k;
                    assert(t1[j].id == k);
                }
            }
        }
        i = i + 1;
    }
    assert(rv.take(rows.len() as int) =~= rv);
    ids
}

/// Copies of the rows of the todo `id`, in their order.
fn rows_with_id(rows: &Vec<TodoWithLabelRow>, id: i32) -> (group: Vec<TodoWithLabelRow>)
    ensures
        rows_view(group@) == group_of(rows_view(rows@), id),
{
    let ghost rv = rows_view(rows@);
    let mut group: Vec<TodoWithLabelRow> = Vec::new();
    let mut i: usize = 0;
    while i < rows.len()
        invariant
            i <= rows.len(),
            rv == rows_view(rows@),
            rows_view(group@) == group_of(rv.take(i as int), id),
        decreases rows.len() - i,
    {
        proof {
            lemma_group_of_take_succ(rv, id, i as int);
        }
        if rows[i].id == id {
            group.push(rows[i].duplicate());
        }
        assert(rows_view(group@) =~= group_of(rv.take(i + 1), id));
        i = i + 1;
    }
    assert(rv.take(rows.len() as int) =~= rv);
    group
}

/// Folds the rows of a todo/label outer join into entities: one per todo id,
/// in ascending order of id, whatever the order of the rows. Each entity takes
/// its fields from the first row of its id and its labels from those rows of
/// its id that carry both a label id and a label name, in row order.
pub fn fold_to_entities(flatten_row: Vec<TodoWithLabelRow>) -> (r: Vec<TodoEntity>)
    ensures
        is_folding(rows_view(flatten_row@), entities_view(r@)),
        flatten_row@.len() == 0 ==> r@.len() == 0,
{
    let ghost rv = rows_view(flatten_row@);
    let ids = sorted_ids(&flatten_row);
    let mut out: Vec<TodoEntity> = Vec::new();
    let mut k: usize = 0;
    while k < ids.len()
        invariant
            k <= ids.len(),
            rv == rows_view(flatten_row@),
            out.len() == k,
            forall|a: int, b: int| 0 <= a < b < ids.len() ==> ids[a] < ids[b],
            forall|id: i32| has_row(rv, id) <==> #[trigger] ids@.contains(id),
            forall|j: int|
                0 <= j < k ==> (#[trigger] out[j])@ == entity_of(group_of(rv, ids[j])) && out[j].id
                    == ids[j],
        decreases ids.len() - k,
    {
        let id = ids[k];
        assert(ids@.contains(id));
        proof {
            lemma_group_of_nonempty(rv, id);
        }
        let group = rows_with_id(&flatten_row, id);
        assert(rows_view(group@)[0].id == id);
        match TodoEntity::maybe_from(group) {
            Some(e) => {
                out.push(e);
            },
            None => {},
        }
        k = k + 1;
    }
    let ghost es = entities_view(out@);
    assert forall|id: i32| has_row(rv, id) <==> #[trigger] has_entity(es, id) by {
        if has_row(rv, id) {
            assert(ids@.contains(id));
            let q = choose|q: int| 0 <= q < ids.len() && #[trigger] ids[q] == id;
            assert(es[q].id == id);
        }
        if has_entity(es, id) {
            let q = choose|q: int| 0 <= q < es.len() && #[trigger] es[q].id == id;
            assert(out[q].id == id);
            assert(ids@.contains(id));
        }
    }
    if flatten_row.len() == 0 {
        if out.len() > 0 {
            assert(es[0] == out[0]@);
            assert(has_entity(es, out[0].id));
        }
    }
    out
}

/// The rows that stand for an entity, as the outer join of a todo with its
/// labels gives them: one for each label, carrying the todo's fields and that
/// label, or a single row without label fields when the entity has no label.
pub fn flatten_entity(entity: &TodoEntity) -> (rows: Vec<TodoWithLabelRow>)
    ensures
        rows_view(rows@) == flatten_spec(entity@),
{
    let mut rows: Vec<TodoWithLabelRow> = Vec::new();
    let mut i: usize = 0;
    while i < entity.labels.len()
        invariant
            i <= entity.labels.len(),
            rows.len() == i,
            rows_view(rows@) == label_rows(entity@).take(i as int),
        decreases entity.labels.len() - i,
    {
        let label = &entity.labels[i];
        assert(entity@.labels[i as int] == label@);
        rows.push(
            TodoWithLabelRow {
                id: entity.id,
                text: entity.text.clone(),
                completed: entity.completed,
                label_id: Some(label.id),
                label_name: Some(label.name.clone()),
            },
        );
        assert(rows_view(rows@) =~= label_rows(entity@).take(i + 1));
        i = i + 1;
    }
    assert(label_rows(entity@).take(i as int) =~= label_rows(entity@));
    if entity.labels.len() == 0 {
        rows.push(
            TodoWithLabelRow {
                id: entity.id,
                text: entity.text.clone(),
                completed: entity.completed,
                label_id: None,
                label_name: None,
            },
        );
        assert(rows_view(rows@) =~= flatten_spec(entity@));
    }
    rows
}

proof fn lemma_ascending_same_ids(a: Seq<TodoView>, b: Seq<TodoView>)
    requires
        ids_ascending(a),
        ids_ascending(b),
        forall|id: i32| #[trigger] has_entity(a, id) <==> has_entity(b, id),
    ensures
        a.len() == b.len(),
        forall|i: int| 0 <= i < a.len() ==> #[trigger] a[i].id == b[i].id,
    decreases a.len() + b.len(),
{
    if a.len() == 0 {
        if b.len() > 0 {
            assert(has_entity(b, b[0].id));
            assert(has_entity(a, b[0].id));
        }
    } else if b.len() == 0 {
        assert(has_entity(a, a[0].id));
        assert(has_entity(b, a[0].id));
    } else {
        assert(has_entity(a, a[0].id));
        assert(has_entity(b, b[0].id));
        assert(has_entity(b, a[0].id));
        assert(has_entity(a, b[0].id));
        let qa = choose|q: int| 0 <= q < b.len() && #[trigger] b[q].id == a[0].id;
        let qb = choose|q: int| 0 <= q < a.len() && #[trigger] a[q].id == b[0].id;
        assert(b[0].id <= b[qa].id);
        assert(a[0].id <= a[qb].id);
        assert(a[0].id == b[0].id);
        let ra = a.drop_first();
        let rb = b.drop_first();
        assert forall|id: i32| #[trigger] has_entity(ra, id) <==> has_entity(rb, id) by {
            if has_entity(ra, id) {
                let q = choose|q: int| 0 <= q < ra.len() && #[trigger] ra[q].id == id;
                assert(a[q + 1].id == id);
                assert(has_entity(a, id));
                assert(has_entity(b, id));
                assert(a[0].id < a[q + 1].id);
                let p = choose|p: int| 0 <= p < b.len() && #[trigger] b[p].id == id;
                assert(p != 0);
                assert(rb[p - 1].id == id);
            }
            if has_entity(rb, id) {
                let q = choose|q: int| 0 <= q < rb.len() && #[trigger] rb[q].id == id;
                assert(b[q + 1].id == id);
                assert(has_entity(b, id));
                assert(has_entity(a, id));
                assert(b[0].id < b[q + 1].id);
                let p = choose|p: int| 0 <= p < a.len() && #[trigger] a[p].id == id;
                assert(p != 0);
                assert(ra[p - 1].id == id);
            }
        }
        lemma_ascending_same_ids(ra, rb);
        assert forall|i: int| 0 <= i < a.len() implies #[trigger] a[i].id == b[i].id by {
            if i > 0 {
                assert(ra[i - 1].id == rb[i - 1].id);
            }
        }
    }
}

/// Folding is deterministic: the rows fix the entities they fold to, so any
/// two results of `fold_to_entities` on the same rows are equal.
pub proof fn lemma_folding_unique(rows: Seq<RowView>, a: Seq<TodoView>, b: Seq<TodoView>)
    requires
        is_folding(rows, a),
        is_folding(rows, b),
    ensures
        a == b,
{
    assert forall|id: i32| #[trigger] has_entity(a, id) <==> has_entity(b, id) by {
        assert(has_row(rows, id) <==> has_entity(a, id));
        assert(has_row(rows, id) <==> has_entity(b, id));
    }
    lemma_ascending_same_ids(a, b);
    assert forall|i: int| 0 <= i < a.len() implies #[trigger] a[i] == b[i] by {
        assert(a[i] == entity_of(group_of(rows, a[i].id)));
        assert(b[i] == entity_of(group_of(rows, b[i].id)));
    }
    assert(a =~= b);
}

/// No two entities that rows fold to share an id.
pub proof fn lemma_folding_ids_unique(rows: Seq<RowView>, es: Seq<TodoView>, i: int, j: int)
    requires
        is_folding(rows, es),
        0 <= i < es.len(),
        0 <= j < es.len(),
        i != j,
    ensures
        es[i].id != es[j].id,
{
    if i < j {
        assert(es[i].id < es[j].id);
    } else {
        assert(es[j].id < es[i].id);
    }
}

proof fn lemma_filter_keeps_all(s: Seq<RowView>, id: i32)
    requires
        forall|i: int| 0 <= i < s.len() ==> #[trigger] s[i].id == id,
    ensures
        group_of(s, id) == s,
    decreases s.len(),
{
    reveal(Seq::filter);
    if s.len() > 0 {
        lemma_filter_keeps_all(s.drop_last(), id);
        assert(s.drop_last().push(s.last()) =~= s);
    }
}

proof fn lemma_labels_of_flatten(e: TodoView, k: int)
    requires
        0 <= k <= e.labels.len(),
    ensures
        labels_of(label_rows(e).take(k)) == e.labels.take(k),
    decreases k,
{
    let rows = label_rows(e);
    if k == 0 {
        assert(rows.take(0) =~= Seq::<RowView>::empty());
        assert(e.labels.take(0) =~= Seq::<LabelView>::empty());
    } else {
        lemma_labels_of_flatten(e, k - 1);
        rows.lemma_filter_map_take_succ(|r: RowView| row_label(r), k - 1);
        assert(row_label(rows[k - 1]) == Some(e.labels[k - 1]));
        assert(e.labels.take(k) =~= e.labels.take(k - 1).push(e.labels[k - 1]));
    }
}

/// Rows that all belong to one todo fold to exactly one entity: the one that
/// those rows stand for.
pub proof fn lemma_fold_one_todo(rows: Seq<RowView>, es: Seq<TodoView>)
    requires
        rows.len() > 0,
        forall|i: int| 0 <= i < rows.len() ==> #[trigger] rows[i].id == rows[0].id,
        is_folding(rows, es),
    ensures
        es == seq![entity_of(rows)],
{
    let id = rows[0].id;
    lemma_filter_keeps_all(rows, id);
    assert(has_row(rows, id));
    assert(has_entity(es, id));
    assert forall|i: int| 0 <= i < es.len() implies #[trigger] es[i].id == id by {
        assert(has_entity(es, es[i].id));
        assert(has_row(rows, es[i].id));
    }
    if es.len() > 1 {
        assert(es[0].id < es[1].id);
    }
    assert(es[0] == entity_of(group_of(rows, es[0].id)));
    assert(es =~= seq![entity_of(rows)]);
}

/// Flattening an entity and folding the rows back gives that entity again,
/// and nothing else.
pub proof fn lemma_flatten_then_fold(e: TodoView, es: Seq<TodoView>)
    requires
        is_folding(flatten_spec(e), es),
    ensures
        es == seq![e],
{
    let rows = flatten_spec(e);
    if e.labels.len() == 0 {
        assert(rows.drop_last() =~= Seq::<RowView>::empty());
        assert(labels_of(rows.drop_last()) =~= Seq::<LabelView>::empty());
        assert(row_label(rows.last()) is None);
        assert(labels_of(rows) =~= e.labels);
    } else {
        lemma_labels_of_flatten(e, e.labels.len() as int);
        assert(rows.take(rows.len() as int) =~= rows);
        assert(e.labels.take(e.labels.len() as int) =~= e.labels);
    }
    assert(entity_of(rows) == e);
    lemma_fold_one_todo(rows, es);
}

proof fn lemma_group_of_has_row(rows: Seq<RowView>, id: i32)
    requires
        group_of(rows, id).len() > 0,
    ensures
        has_row(rows, id),
{
    let pred = |r: RowView| r.id == id;
    let g = group_of(rows, id);
    rows.lemma_filter_pred(pred, 0);
    assert(g.contains(g[0]));
    rows.lemma_filter_contains_rev(pred, g[0]);
    let i = choose|i: int| 0 <= i < rows.len() && rows[i] == g[0];
    assert(rows[i].id == id);
}

/// The todo `id` read back from outer-join rows: the entity of the rows of
/// that id, or `NotFound` when no row has that id.
pub fn entity_from_rows(id: i32, rows: Vec<TodoWithLabelRow>) -> (r: Result<TodoEntity, RepositoryError>)
    ensures
        r is Err <==> !has_row(rows_view(rows@), id),
        r matches Err(e) ==> e == RepositoryError::NotFound(id),
        r matches Ok(e) ==> e@ == entity_of(group_of(rows_view(rows@), id)),
{
    let group = rows_with_id(&rows, id);
    proof {
        if has_row(rows_view(rows@), id) {
            lemma_group_of_nonempty(rows_view(rows@), id);
        }
        if group.len() > 0 {
            lemma_group_of_has_row(rows_view(rows@), id);
        }
    }
    match TodoEntity::maybe_from(group) {
        Some(e) => Ok(e),
        None => Err(RepositoryError::NotFound(id)),
    }
}

} // verus!
