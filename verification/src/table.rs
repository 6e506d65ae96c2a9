//! Tables from names to values: unique names, kept in the order of their first insertion.

use crate::text::same_text;
use vstd::prelude::*;

verus! {

/// One row of a table.
pub struct Row<V> {
    pub name: String,
    pub value: V,
}

impl<V: DeepView> DeepView for Row<V> {
    type V = (Seq<char>, V::V);

    open spec fn deep_view(&self) -> (Seq<char>, V::V) {
        (self.name@, self.value.deep_view())
    }
}

/// A table whose rows have different names.
pub struct Table<V> {
    rows: Vec<Row<V>>,
}

/// No two rows have the same name.
pub open spec fn distinct_names<T>(rows: Seq<(Seq<char>, T)>) -> bool {
    forall|i: int, j: int|
        0 <= i < j < rows.len() ==> (#[trigger] rows[i]).0 != (#[trigger] rows[j]).0
}

/// Whether a row has this name.
pub open spec fn has_name<T>(rows: Seq<(Seq<char>, T)>, name: Seq<char>) -> bool {
    exists|i: int| 0 <= i < rows.len() && (#[trigger] rows[i]).0 == name
}

/// The index of the first row with this name, or the number of rows if there is none.
pub open spec fn row_of<T>(rows: Seq<(Seq<char>, T)>, name: Seq<char>) -> int
    decreases rows.len(),
{
    if rows.len() == 0 {
        0
    } else if rows[0].0 == name {
        0
    } else {
        row_of(rows.skip(1), name) + 1
    }
}

/// The value stored under a name.
pub open spec fn lookup<T>(rows: Seq<(Seq<char>, T)>, name: Seq<char>) -> Option<T> {
    let i = row_of(rows, name);
    if 0 <= i < rows.len() {
        Some(rows[i].1)
    } else {
        None
    }
}

/// The table with `value` stored under `name`: in the row that has the name, or in a new last row.
pub open spec fn put<T>(rows: Seq<(Seq<char>, T)>, name: Seq<char>, value: T) -> Seq<
    (Seq<char>, T),
> {
    let i = row_of(rows, name);
    if 0 <= i < rows.len() {
        rows.update(i, (name, value))
    } else {
        rows.push((name, value))
    }
}

/// The table without the row of a name.
pub open spec fn without<T>(rows: Seq<(Seq<char>, T)>, name: Seq<char>) -> Seq<(Seq<char>, T)> {
    let i = row_of(rows, name);
    if 0 <= i < rows.len() {
        rows.remove(i)
    } else {
        rows
    }
}

/// `row_of` is the first row with the name.
pub proof fn lemma_row_of<T>(rows: Seq<(Seq<char>, T)>, name: Seq<char>)
    ensures
        0 <= row_of(rows, name) <= rows.len(),
        row_of(rows, name) < rows.len() ==> rows[row_of(rows, name)].0 == name,
        forall|j: int| 0 <= j < row_of(rows, name) ==> (#[trigger] rows[j]).0 != name,
        has_name(rows, name) == (row_of(rows, name) < rows.len()),
    decreases rows.len(),
{
    if rows.len() > 0 && rows[0].0 != name {
        lemma_row_of(rows.skip(1), name);
        let k = row_of(rows.skip(1), name);
        assert forall|j: int| 0 <= j < k + 1 implies (#[trigger] rows[j]).0 != name by {
            if j > 0 {
                assert(rows.skip(1)[j - 1] == rows[j]);
            }
        }
        if has_name(rows, name) {
            let i = choose|i: int| 0 <= i < rows.len() && (#[trigger] rows[i]).0 == name;
            assert(rows.skip(1)[i - 1] == rows[i]);
        }
    }
}

/// The row with no earlier row of its name is `row_of`.
pub proof fn lemma_row_of_is<T>(rows: Seq<(Seq<char>, T)>, name: Seq<char>, k: int)
    requires
        0 <= k <= rows.len(),
        forall|j: int| 0 <= j < k ==> (#[trigger] rows[j]).0 != name,
        k < rows.len() ==> rows[k].0 == name,
    ensures
        row_of(rows, name) == k,
{
    lemma_row_of(rows, name);
}

/// What is stored is found again, and nothing else changes.
pub proof fn lemma_put<T>(rows: Seq<(Seq<char>, T)>, name: Seq<char>, value: T)
    ensures
        lookup(put(rows, name, value), name) == Some(value),
        forall|other: Seq<char>|
            other != name ==> #[trigger] lookup(put(rows, name, value), other) == lookup(
                rows,
                other,
            ),
        distinct_names(rows) ==> distinct_names(put(rows, name, value)),
{
    let after = put(rows, name, value);
    let k = row_of(rows, name);
    lemma_row_of(rows, name);
    lemma_row_of_is(after, name, k);
    assert forall|other: Seq<char>| other != name implies #[trigger] lookup(after, other) == lookup(
        rows,
        other,
    ) by {
        lemma_row_of(rows, other);
        let o = row_of(rows, other);
        if o < rows.len() {
            assert(after[o] == rows[o]);
            lemma_row_of_is(after, other, o);
        } else {
            lemma_row_of_is(after, other, after.len() as int);
        }
    }
}

/// A name that is removed is gone, and nothing else changes.
pub proof fn lemma_without<T>(rows: Seq<(Seq<char>, T)>, name: Seq<char>)
    requires
        distinct_names(rows),
    ensures
        lookup(without(rows, name), name) is None,
        forall|other: Seq<char>|
            other != name ==> #[trigger] lookup(without(rows, name), other) == lookup(rows, other),
        distinct_names(without(rows, name)),
{
    let k = row_of(rows, name);
    let after = without(rows, name);
    lemma_row_of(rows, name);
    if k < rows.len() {
        assert forall|j: int| 0 <= j < after.len() implies (#[trigger] after[j]).0 != name by {
            if j < k {
                assert(after[j] == rows[j]);
            } else {
                assert(after[j] == rows[j + 1]);
                assert(rows[k].0 != rows[j + 1].0);
            }
        }
    }
    lemma_row_of_is(after, name, after.len() as int);
    assert forall|other: Seq<char>| other != name implies #[trigger] lookup(after, other) == lookup(
        rows,
        other,
    ) by {
        lemma_row_of(rows, other);
        let o = row_of(rows, other);
        if k < rows.len() {
            let o1 = if o > k {
                o - 1
            } else {
                o
            };
            assert forall|j: int| 0 <= j < o1 implies (#[trigger] after[j]).0 != other by {
                if j < k {
                    assert(after[j] == rows[j]);
                } else {
                    assert(after[j] == rows[j + 1]);
                }
            }
            if o < rows.len() {
                assert(after[o1] == rows[o]);
            }
            lemma_row_of_is(after, other, o1);
        }
    }
    assert forall|a: int, b: int| 0 <= a < b < after.len() implies (#[trigger] after[a]).0 != (
    #[trigger] after[b]).0 by {
        if k < rows.len() {
            let a0 = if a < k {
                a
            } else {
                a + 1
            };
            let b0 = if b < k {
                b
            } else {
                b + 1
            };
            assert(after[a] == rows[a0]);
            assert(after[b] == rows[b0]);
        }
    }
}

impl<V: DeepView> View for Table<V> {
    type V = Seq<(Seq<char>, V::V)>;

    /// The names and values in order.
    closed spec fn view(&self) -> Seq<(Seq<char>, V::V)> {
        self.rows.deep_view()
    }
}

impl<V: DeepView> Table<V> {
    /// Whether the names are distinct.
    pub open spec fn wf(&self) -> bool {
        distinct_names(self@)
    }

    /// The table without rows.
    pub fn new() -> (r: Table<V>)
        ensures
            r@ == Seq::<(Seq<char>, V::V)>::empty(),
            r.wf(),
    {
        let r = Table { rows: Vec::new() };
        proof {
            assert(r@ =~= Seq::<(Seq<char>, V::V)>::empty());
        }
        r
    }

    /// How many rows there are.
    pub fn len(&self) -> (r: usize)
        ensures
            r == self@.len(),
    {
        self.rows.len()
    }

    /// The name in row `i`.
    pub fn name_at(&self, i: usize) -> (r: &String)
        requires
            i < self@.len(),
        ensures
            r@ == self@[i as int].0,
    {
        &self.rows[i].name
    }

    /// The value in row `i`.
    pub fn value_at(&self, i: usize) -> (r: &V)
        requires
            i < self@.len(),
        ensures
            r.deep_view() == self@[i as int].1,
    {
        &self.rows[i].value
    }

    /// The index of the row with this name, or the number of rows if there is none.
    pub fn row(&self, name: &str) -> (r: usize)
        ensures
            r == row_of(self@, name@),
            r <= self@.len(),
            (r < self@.len()) == has_name(self@, name@),
            r < self@.len() ==> self@[r as int].0 == name@,
    {
        let n: usize = self.rows.len();
        let mut i: usize = 0;
        while i < n && !same_text(self.rows[i].name.as_str(), name)
            invariant
                i <= n,
                n == self.rows@.len(),
                n == self@.len(),
                forall|j: int| 0 <= j < i ==> (#[trigger] self@[j]).0 != name@,
            decreases n - i,
        {
            i = i + 1;
        }
        proof {
            lemma_row_of_is(self@, name@, i as int);
            lemma_row_of(self@, name@);
        }
        i
    }

    /// Whether a row has this name.
    pub fn contains(&self, name: &str) -> (r: bool)
        ensures
            r == has_name(self@, name@),
    {
        self.row(name) < self.rows.len()
    }

    /// The value stored under a name.
    pub fn get(&self, name: &str) -> (r: Option<&V>)
        ensures
            r is Some == has_name(self@, name@),
            r is Some == (lookup(self@, name@) is Some),
            r is Some ==> (r->0).deep_view() == lookup(self@, name@)->0,
    {
        let i: usize = self.row(name);
        if i < self.rows.len() {
            Some(&self.rows[i].value)
        } else {
            None
        }
    }

    /// Adds a last row.
    pub(crate) fn push_row(&mut self, name: String, value: V)
        ensures
            final(self)@ == old(self)@.push((name@, value.deep_view())),
    {
        let ghost before = self@;
        self.rows.push(Row { name, value });
        proof {
            assert(self@ =~= before.push((name@, value.deep_view())));
        }
    }

    /// The rows in order.
    pub fn into_rows(self) -> (r: Vec<Row<V>>)
        ensures
            r.deep_view() == self@,
    {
        self.rows
    }

    /// Removes the row with this name, if there is one.
    pub fn remove(&mut self, name: &str)
        ensures
            final(self)@ == without(old(self)@, name@),
            old(self).wf() ==> final(self).wf(),
    {
        let i: usize = self.row(name);
        let ghost before = self@;
        if i < self.rows.len() {
            self.rows.remove(i);
            proof {
                assert(self@ =~= before.remove(i as int));
            }
        }
        proof {
            if distinct_names(before) {
                lemma_without(before, name@);
            }
        }
    }

    /// Stores a value under a name.
    pub fn insert(&mut self, name: String, value: V)
        ensures
            final(self)@ == put(old(self)@, name@, value.deep_view()),
            old(self).wf() ==> final(self).wf(),
    {
        let i: usize = self.row(name.as_str());
        proof {
            lemma_put(self@, name@, value.deep_view());
        }
        let row = Row { name, value };
        if i < self.rows.len() {
            self.rows.set(i, row);
        } else {
            self.rows.push(row);
        }
        proof {
            assert(self@ =~= put(old(self)@, name@, value.deep_view()));
        }
    }
}

/// The list stored under a name; empty if the table does not have the name.
pub open spec fn list_at<T>(rows: Seq<(Seq<char>, Seq<T>)>, name: Seq<char>) -> Seq<T> {
    match lookup(rows, name) {
        Some(list) => list,
        None => seq![],
    }
}

impl<T: DeepView> Table<Vec<T>> {
    /// Appends an item to the list stored under a name.
    pub fn append(&mut self, name: String, item: T)
        ensures
            final(self)@ == put(
                old(self)@,
                name@,
                list_at(old(self)@, name@).push(item.deep_view()),
            ),
            old(self).wf() ==> final(self).wf(),
    {
        let i: usize = self.row(name.as_str());
        let ghost list = list_at(self@, name@);
        proof {
            lemma_put(self@, name@, list.push(item.deep_view()));
        }
        if i < self.rows.len() {
            self.rows[i].value.push(item);
            proof {
                assert(self.rows@[i as int].value.deep_view() =~= list.push(item.deep_view()));
            }
        } else {
            let mut value: Vec<T> = Vec::new();
            value.push(item);
            proof {
                assert(value.deep_view() =~= list.push(item.deep_view()));
            }
            self.rows.push(Row { name, value });
        }
        proof {
            assert(self@ =~= put(old(self)@, name@, list.push(item.deep_view())));
        }
    }
}

impl<T: DeepView> Table<Vec<T>> {
    /// Adds items behind the list stored under a name, which may be new.
    pub fn extend(&mut self, name: String, items: Vec<T>)
        ensures
            final(self)@ == put(
                old(self)@,
                name@,
                list_at(old(self)@, name@) + items.deep_view(),
            ),
            old(self).wf() ==> final(self).wf(),
    {
        let i: usize = self.row(name.as_str());
        let ghost list = list_at(self@, name@);
        let ghost added = items.deep_view();
        proof {
            lemma_put(self@, name@, list + added);
        }
        if i < self.rows.len() {
            let mut items = items;
            self.rows[i].value.append(&mut items);
            proof {
                assert(self.rows@[i as int].value.deep_view() =~= list + added);
            }
        } else {
            proof {
                assert(added =~= list + added);
            }
            self.rows.push(Row { name, value: items });
        }
        proof {
            assert(self@ =~= put(old(self)@, name@, list + added));
        }
    }
}

/// The table with lists added, one after another, behind those stored under their names.
pub open spec fn join_lists<T>(
    rows: Seq<(Seq<char>, Seq<T>)>,
    added: Seq<(Seq<char>, Seq<T>)>,
) -> Seq<(Seq<char>, Seq<T>)>
    decreases added.len(),
{
    if added.len() == 0 {
        rows
    } else {
        let before = join_lists(rows, added.drop_last());
        put(before, added.last().0, list_at(before, added.last().0) + added.last().1)
    }
}

/// The lists that go to one name, in a row.
pub open spec fn lists_for<T>(added: Seq<(Seq<char>, Seq<T>)>, name: Seq<char>) -> Seq<T>
    decreases added.len(),
{
    if added.len() == 0 {
        seq![]
    } else if added.last().0 == name {
        lists_for(added.drop_last(), name) + added.last().1
    } else {
        lists_for(added.drop_last(), name)
    }
}

/// Joining keeps every item: a name has the items it had before, followed by those of the lists
/// that go to it, in order. Names stay distinct, and the names are those that were there and those
/// of the lists.
pub proof fn lemma_join_lists<T>(
    rows: Seq<(Seq<char>, Seq<T>)>,
    added: Seq<(Seq<char>, Seq<T>)>,
    name: Seq<char>,
)
    ensures
        list_at(join_lists(rows, added), name) == list_at(rows, name) + lists_for(added, name),
        distinct_names(rows) ==> distinct_names(join_lists(rows, added)),
        has_name(join_lists(rows, added), name) == (has_name(rows, name) || has_name(added, name)),
    decreases added.len(),
{
    if added.len() == 0 {
        assert(list_at(rows, name) + lists_for(added, name) =~= list_at(rows, name));
    } else {
        let head = added.drop_last();
        let last = added.last();
        let mid = join_lists(rows, head);
        let list = list_at(mid, last.0) + last.1;
        let after = put(mid, last.0, list);
        lemma_join_lists(rows, head, name);
        lemma_put(mid, last.0, list);
        lemma_row_of(mid, name);
        lemma_row_of(after, name);
        if last.0 == name {
            assert(list_at(mid, name) + last.1 =~= list_at(rows, name) + lists_for(added, name));
            assert(added[added.len() - 1].0 == name);
            assert(lookup(after, name) is Some);
        } else {
            assert(lookup(after, name) == lookup(mid, name));
            if has_name(added, name) {
                let i = choose|i: int| 0 <= i < added.len() && (#[trigger] added[i]).0 == name;
                assert(head[i].0 == name);
            }
            if has_name(head, name) {
                let i = choose|i: int| 0 <= i < head.len() && (#[trigger] head[i]).0 == name;
                assert(added[i].0 == name);
            }
        }
    }
}

/// Joining two lists in a row.
pub proof fn lemma_join_lists_concat<T>(
    rows: Seq<(Seq<char>, Seq<T>)>,
    a: Seq<(Seq<char>, Seq<T>)>,
    b: Seq<(Seq<char>, Seq<T>)>,
)
    ensures
        join_lists(rows, a + b) == join_lists(join_lists(rows, a), b),
    decreases b.len(),
{
    if b.len() == 0 {
        assert(a + b =~= a);
    } else {
        lemma_join_lists_concat(rows, a, b.drop_last());
        assert((a + b).drop_last() =~= a + b.drop_last());
    }
}

/// A list that goes to a name is among those in a row.
pub proof fn lemma_list_is_joined<T>(added: Seq<(Seq<char>, Seq<T>)>, i: int, item: T)
    requires
        0 <= i < added.len(),
        added[i].1.contains(item),
    ensures
        lists_for(added, added[i].0).contains(item),
    decreases added.len(),
{
    let name = added[i].0;
    let head = added.drop_last();
    let before = lists_for(head, name);
    let all = lists_for(added, name);
    if i == added.len() - 1 {
        let list = added[i].1;
        let j = choose|j: int| 0 <= j < list.len() && list[j] == item;
        assert(all[before.len() + j] == item);
    } else {
        assert(head[i] == added[i]);
        lemma_list_is_joined(head, i, item);
        let j = choose|j: int| 0 <= j < before.len() && before[j] == item;
        assert(all[j] == item);
    }
}

/// The table with items appended, one after another, to the lists stored under their names.
pub open spec fn append_all<T>(
    rows: Seq<(Seq<char>, Seq<T>)>,
    added: Seq<(Seq<char>, T)>,
) -> Seq<(Seq<char>, Seq<T>)>
    decreases added.len(),
{
    if added.len() == 0 {
        rows
    } else {
        let before = append_all(rows, added.drop_last());
        put(before, added.last().0, list_at(before, added.last().0).push(added.last().1))
    }
}

/// The items of a list that go to one name.
pub open spec fn items_for<T>(added: Seq<(Seq<char>, T)>, name: Seq<char>) -> Seq<T>
    decreases added.len(),
{
    if added.len() == 0 {
        seq![]
    } else if added.last().0 == name {
        items_for(added.drop_last(), name).push(added.last().1)
    } else {
        items_for(added.drop_last(), name)
    }
}

/// Appending keeps every item: a name has the items it had before, followed by the new ones in
/// order. Names stay distinct, and no list is left empty.
pub proof fn lemma_append_all<T>(
    rows: Seq<(Seq<char>, Seq<T>)>,
    added: Seq<(Seq<char>, T)>,
    name: Seq<char>,
)
    ensures
        list_at(append_all(rows, added), name) == list_at(rows, name) + items_for(added, name),
        distinct_names(rows) ==> distinct_names(append_all(rows, added)),
        no_empty_list(rows) ==> no_empty_list(append_all(rows, added)),
    decreases added.len(),
{
    if added.len() == 0 {
        assert(list_at(rows, name) + items_for(added, name) =~= list_at(rows, name));
    } else {
        let mid = append_all(rows, added.drop_last());
        let list = list_at(mid, added.last().0).push(added.last().1);
        lemma_append_all(rows, added.drop_last(), name);
        lemma_put(mid, added.last().0, list);
        lemma_row_of(mid, added.last().0);
        if added.last().0 == name {
            assert(list_at(mid, name).push(added.last().1) =~= list_at(rows, name) + items_for(
                added,
                name,
            ));
        }
        let after = append_all(rows, added);
        if no_empty_list(rows) {
            assert forall|i: int| 0 <= i < after.len() implies (#[trigger] after[i]).1.len() > 0 by {
                if i < mid.len() && i != row_of(mid, added.last().0) {
                    assert(after[i] == mid[i]);
                }
            }
        }
    }
}

/// Every name has at least one item.
pub open spec fn no_empty_list<T>(rows: Seq<(Seq<char>, Seq<T>)>) -> bool {
    forall|i: int| 0 <= i < rows.len() ==> (#[trigger] rows[i]).1.len() > 0
}

pub proof fn lemma_append_all_concat<T>(
    rows: Seq<(Seq<char>, Seq<T>)>,
    a: Seq<(Seq<char>, T)>,
    b: Seq<(Seq<char>, T)>,
)
    ensures
        append_all(rows, a + b) == append_all(append_all(rows, a), b),
    decreases b.len(),
{
    if b.len() == 0 {
        assert(a + b =~= a);
    } else {
        lemma_append_all_concat(rows, a, b.drop_last());
        assert((a + b).drop_last() =~= a + b.drop_last());
    }
}

} // verus!
