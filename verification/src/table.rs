//! Tables: column storage of the components of the entities of archetypes
//! that share their table components.

use std::alloc::Layout;

use vstd::prelude::*;

use crate::type_def::{prefix_has, lemma_prefix_has_step};
use crate::component::{ComponentId, ComponentInfo, ComponentTicks, Components, Tick};
use crate::entity::Entity;
use crate::index::SparseSetIndex;

verus! {

/// The identifier of a table.
#[derive(Debug, Clone, Copy, PartialEq, Eq, Hash)]
pub struct TableId(u32);

impl TableId {
    pub closed spec fn spec_index(&self) -> u32 {
        self.0
    }

    /// The table id of the given index, truncated to 32 bits.
    pub fn new(index: usize) -> (r: Self)
        ensures
            r.spec_index() == index as u32,
    {
        TableId(index as u32)
    }

    /// The index of the table.
    pub fn index(self) -> (r: usize)
        ensures
            r == self.spec_index(),
    {
        self.0 as usize
    }

    /// The id of the table without components.
    pub fn empty() -> (r: TableId)
        ensures
            r.spec_index() == 0,
    {
        TableId(0)
    }

    /// An id that names no table.
    pub fn invalid() -> (r: TableId)
        ensures
            r.spec_index() == u32::MAX,
    {
        TableId(u32::MAX)
    }

    /// Table ids with the same index are the same.
    pub proof fn lemma_index_injective(a: TableId, b: TableId)
        requires
            a.spec_index() == b.spec_index(),
        ensures
            a == b,
    {
    }
}

impl SparseSetIndex for TableId {
    closed spec fn spec_sparse_set_index(&self) -> usize {
        self.0 as usize
    }

    open spec fn spec_index_fits(value: usize) -> bool {
        value <= u32::MAX
    }

    fn sparse_set_index(&self) -> (r: usize) {
        self.0 as usize
    }

    fn get_sparse_set_index(value: usize) -> (r: Self) {
        Self(value as u32)
    }
}

/// A column position in a table.
#[derive(Debug, Clone, Copy, PartialEq, Eq)]
pub struct TableColumn(pub u32);

/// A row of a table.
#[derive(Debug, Clone, Copy, PartialEq, Eq)]
pub struct TableRow(u32);

impl TableRow {
    pub closed spec fn spec_index(&self) -> u32 {
        self.0
    }

    /// The row of the given index, truncated to 32 bits.
    pub fn new(index: usize) -> (r: Self)
        ensures
            r.spec_index() == index as u32,
    {
        Self(index as u32)
    }

    /// The index of the row.
    pub fn index(self) -> (r: usize)
        ensures
            r == self.spec_index(),
    {
        self.0 as usize
    }

    /// A row that names no row.
    pub fn invalid() -> (r: Self)
        ensures
            r.spec_index() == u32::MAX,
    {
        Self(u32::MAX)
    }
}

} // verus!

verus! {

/// The capacity of a vector: at least its length. What it is beyond that
/// depends on the allocator.
#[verifier::external_body]
pub(crate) fn vec_capacity<T>(v: &Vec<T>) -> (r: usize)
    ensures
        r >= v@.len(),
{
    v.capacity()
}

/// `Vec::reserve_exact`: the contents stay the same.
#[verifier::external_body]
fn vec_reserve_exact<T>(v: &mut Vec<T>, additional: usize)
    ensures
        final(v)@ == old(v)@,
{
    v.reserve_exact(additional)
}

/// The values of one component for the rows of a table, with the ticks at
/// which each was added and last changed. A value is held as the bytes of the
/// component; a row that has been allocated but not initialized holds `None`.
#[derive(Debug)]
pub struct Column {
    item_layout: Layout,
    data: Vec<Option<Vec<u8>>>,
    added_ticks: Vec<Tick>,
    changed_ticks: Vec<Tick>,
}

impl Column {
    pub closed spec fn spec_layout(&self) -> Layout {
        self.item_layout
    }

    /// The value of each row.
    pub closed spec fn spec_data(&self) -> Seq<Option<Vec<u8>>> {
        self.data@
    }

    /// The tick at which each row's value was added.
    pub closed spec fn spec_added(&self) -> Seq<Tick> {
        self.added_ticks@
    }

    /// The tick at which each row's value last changed.
    pub closed spec fn spec_changed(&self) -> Seq<Tick> {
        self.changed_ticks@
    }

    /// The number of rows.
    pub open spec fn spec_len(&self) -> nat {
        self.spec_data().len()
    }

    /// Values and both tick lists have one entry per row.
    pub closed spec fn wf(&self) -> bool {
        &&& self.added_ticks@.len() == self.data@.len()
        &&& self.changed_ticks@.len() == self.data@.len()
    }

    /// An empty column for the values of `component_info`.
    pub fn with_capacity(component_info: &ComponentInfo, capacity: usize) -> (r: Self)
        ensures
            r.wf(),
            r.spec_len() == 0,
            r.spec_layout() == component_info.spec_layout(),
    {
        Column {
            item_layout: component_info.layout(),
            data: Vec::with_capacity(capacity),
            added_ticks: Vec::with_capacity(capacity),
            changed_ticks: Vec::with_capacity(capacity),
        }
    }

    /// The layout of the column's values.
    pub fn item_layout(&self) -> (r: Layout)
        ensures
            r == self.spec_layout(),
    {
        self.item_layout
    }

    /// The number of rows.
    pub fn len(&self) -> (r: usize)
        ensures
            r == self.spec_len(),
    {
        self.data.len()
    }

    pub fn is_empty(&self) -> (r: bool)
        ensures
            r == (self.spec_len() == 0),
    {
        self.data.len() == 0
    }

    /// Removes every row.
    pub fn clear(&mut self)
        ensures
            final(self).wf(),
            final(self).spec_len() == 0,
            final(self).spec_added() == Seq::<Tick>::empty(),
            final(self).spec_changed() == Seq::<Tick>::empty(),
            final(self).spec_layout() == old(self).spec_layout(),
    {
        self.data.clear();
        self.added_ticks.clear();
        self.changed_ticks.clear();
    }

    /// Appends a row with `data`, added and changed at the given ticks.
    pub fn push(&mut self, data: Vec<u8>, ticks: ComponentTicks)
        requires
            old(self).wf(),
        ensures
            final(self).wf(),
            final(self).spec_data() == old(self).spec_data().push(Some(data)),
            final(self).spec_added() == old(self).spec_added().push(ticks.added),
            final(self).spec_changed() == old(self).spec_changed().push(ticks.changed),
            final(self).spec_layout() == old(self).spec_layout(),
    {
        self.data.push(Some(data));
        self.added_ticks.push(ticks.added);
        self.changed_ticks.push(ticks.changed);
    }

    /// Reserves room for `additional` more rows; the rows stay the same.
    pub fn reserve_exact(&mut self, additional: usize)
        requires
            old(self).wf(),
        ensures
            final(self).wf(),
            final(self).spec_data() == old(self).spec_data(),
            final(self).spec_added() == old(self).spec_added(),
            final(self).spec_changed() == old(self).spec_changed(),
            final(self).spec_layout() == old(self).spec_layout(),
    {
        vec_reserve_exact(&mut self.data, additional);
        vec_reserve_exact(&mut self.added_ticks, additional);
        vec_reserve_exact(&mut self.changed_ticks, additional);
    }

    /// Writes the value of an existing row, added and changed at `tick`.
    pub fn initialize(&mut self, row: TableRow, data: Vec<u8>, tick: Tick)
        requires
            old(self).wf(),
            row.spec_index() < old(self).spec_len(),
        ensures
            final(self).wf(),
            final(self).spec_data() == old(self).spec_data().update(
                row.spec_index() as int,
                Some(data),
            ),
            final(self).spec_added() == old(self).spec_added().update(row.spec_index() as int, tick),
            final(self).spec_changed() == old(self).spec_changed().update(
                row.spec_index() as int,
                tick,
            ),
            final(self).spec_layout() == old(self).spec_layout(),
    {
        self.data.set(row.index(), Some(data));
        self.added_ticks.set(row.index(), tick);
        self.changed_ticks.set(row.index(), tick);
    }

    /// Replaces the value of an existing row, changed at `change_tick`.
    pub fn replace(&mut self, row: TableRow, data: Vec<u8>, change_tick: Tick)
        requires
            old(self).wf(),
            row.spec_index() < old(self).spec_len(),
        ensures
            final(self).wf(),
            final(self).spec_data() == old(self).spec_data().update(
                row.spec_index() as int,
                Some(data),
            ),
            final(self).spec_added() == old(self).spec_added(),
            final(self).spec_changed() == old(self).spec_changed().update(
                row.spec_index() as int,
                change_tick,
            ),
            final(self).spec_layout() == old(self).spec_layout(),
    {
        self.data.set(row.index(), Some(data));
        self.changed_ticks.set(row.index(), change_tick);
    }

    /// Replaces the value of an existing row without touching its ticks.
    pub fn replace_untracked(&mut self, row: TableRow, data: Vec<u8>)
        requires
            old(self).wf(),
            row.spec_index() < old(self).spec_len(),
        ensures
            final(self).wf(),
            final(self).spec_data() == old(self).spec_data().update(
                row.spec_index() as int,
                Some(data),
            ),
            final(self).spec_added() == old(self).spec_added(),
            final(self).spec_changed() == old(self).spec_changed(),
            final(self).spec_layout() == old(self).spec_layout(),
    {
        self.data.set(row.index(), Some(data));
    }

    /// Removes a row; the last row takes its place.
    pub fn swap_remove_unchecked(&mut self, row: TableRow)
        requires
            old(self).wf(),
            row.spec_index() < old(self).spec_len(),
        ensures
            final(self).wf(),
            final(self).spec_data() == swap_removed(old(self).spec_data(), row.spec_index() as int),
            final(self).spec_added() == swap_removed(
                old(self).spec_added(),
                row.spec_index() as int,
            ),
            final(self).spec_changed() == swap_removed(
                old(self).spec_changed(),
                row.spec_index() as int,
            ),
            final(self).spec_layout() == old(self).spec_layout(),
    {
        self.data.swap_remove(row.index());
        self.added_ticks.swap_remove(row.index());
        self.changed_ticks.swap_remove(row.index());
    }

    /// Removes a row and hands back its value and ticks; the last row takes
    /// its place. `None`, with no change, when the row does not exist.
    pub fn swap_remove_and_forget(&mut self, row: TableRow) -> (r: Option<
        (Option<Vec<u8>>, ComponentTicks),
    >)
        requires
            old(self).wf(),
        ensures
            final(self).wf(),
            final(self).spec_layout() == old(self).spec_layout(),
            r is Some <==> row.spec_index() < old(self).spec_len(),
            r is None ==> *final(self) == *old(self),
            r matches Some((data, ticks)) ==> {
                let i = row.spec_index() as int;
                &&& data == old(self).spec_data()[i]
                &&& ticks.added == old(self).spec_added()[i]
                &&& ticks.changed == old(self).spec_changed()[i]
                &&& final(self).spec_data() == swap_removed(old(self).spec_data(), i)
                &&& final(self).spec_added() == swap_removed(old(self).spec_added(), i)
                &&& final(self).spec_changed() == swap_removed(old(self).spec_changed(), i)
            },
    {
        if row.index() < self.data.len() {
            Some(self.swap_remove_and_forget_unchecked(row))
        } else {
            None
        }
    }

    /// Removes an existing row and hands back its value and ticks; the last row
    /// takes its place.
    pub fn swap_remove_and_forget_unchecked(&mut self, row: TableRow) -> (r: (
        Option<Vec<u8>>,
        ComponentTicks,
    ))
        requires
            old(self).wf(),
            row.spec_index() < old(self).spec_len(),
        ensures
            final(self).wf(),
            final(self).spec_layout() == old(self).spec_layout(),
            ({
                let i = row.spec_index() as int;
                &&& r.0 == old(self).spec_data()[i]
                &&& r.1.added == old(self).spec_added()[i]
                &&& r.1.changed == old(self).spec_changed()[i]
                &&& final(self).spec_data() == swap_removed(old(self).spec_data(), i)
                &&& final(self).spec_added() == swap_removed(old(self).spec_added(), i)
                &&& final(self).spec_changed() == swap_removed(old(self).spec_changed(), i)
            }),
    {
        let data = self.data.swap_remove(row.index());
        let added = self.added_ticks.swap_remove(row.index());
        let changed = self.changed_ticks.swap_remove(row.index());
        (data, ComponentTicks { added, changed })
    }

    /// Moves row `src_row` of `src_column` into the existing row `dst_row` of
    /// this column; the last row of `src_column` takes the place of the moved
    /// one.
    pub fn initialize_from_unchecked(
        &mut self,
        dst_row: TableRow,
        src_column: &mut Column,
        src_row: TableRow,
    )
        requires
            old(self).wf(),
            old(src_column).wf(),
            dst_row.spec_index() < old(self).spec_len(),
            src_row.spec_index() < old(src_column).spec_len(),
        ensures
            final(self).wf(),
            final(src_column).wf(),
            final(self).spec_layout() == old(self).spec_layout(),
            final(src_column).spec_layout() == old(src_column).spec_layout(),
            ({
                let d = dst_row.spec_index() as int;
                let s = src_row.spec_index() as int;
                &&& final(self).spec_data() == old(self).spec_data().update(
                    d,
                    old(src_column).spec_data()[s],
                )
                &&& final(self).spec_added() == old(self).spec_added().update(
                    d,
                    old(src_column).spec_added()[s],
                )
                &&& final(self).spec_changed() == old(self).spec_changed().update(
                    d,
                    old(src_column).spec_changed()[s],
                )
                &&& final(src_column).spec_data() == swap_removed(old(src_column).spec_data(), s)
                &&& final(src_column).spec_added() == swap_removed(old(src_column).spec_added(), s)
                &&& final(src_column).spec_changed() == swap_removed(
                    old(src_column).spec_changed(),
                    s,
                )
            }),
    {
        let (data, ticks) = src_column.swap_remove_and_forget_unchecked(src_row);
        self.data.set(dst_row.index(), data);
        self.added_ticks.set(dst_row.index(), ticks.added);
        self.changed_ticks.set(dst_row.index(), ticks.changed);
    }

    /// The added ticks of every row.
    pub fn get_added_ticks_slice(&self) -> (r: &[Tick])
        ensures
            r@ == self.spec_added(),
    {
        self.added_ticks.as_slice()
    }

    /// The changed ticks of every row.
    pub fn get_changed_ticks_slice(&self) -> (r: &[Tick])
        ensures
            r@ == self.spec_changed(),
    {
        self.changed_ticks.as_slice()
    }

    /// The value and ticks of a row, if it exists.
    pub fn get(&self, row: TableRow) -> (r: Option<(&Option<Vec<u8>>, ComponentTicks)>)
        requires
            self.wf(),
        ensures
            r is Some <==> row.spec_index() < self.spec_len(),
            r matches Some((data, ticks)) ==> {
                let i = row.spec_index() as int;
                &&& *data == self.spec_data()[i]
                &&& ticks.added == self.spec_added()[i]
                &&& ticks.changed == self.spec_changed()[i]
            },
    {
        if row.index() < self.data.len() {
            Some(
                (
                    &self.data[row.index()],
                    ComponentTicks {
                        added: self.added_ticks[row.index()],
                        changed: self.changed_ticks[row.index()],
                    },
                ),
            )
        } else {
            None
        }
    }

    /// The value of a row, if it exists.
    pub fn get_data(&self, row: TableRow) -> (r: Option<&Option<Vec<u8>>>)
        ensures
            r is Some <==> row.spec_index() < self.spec_len(),
            r is Some ==> *r->0 == self.spec_data()[row.spec_index() as int],
    {
        if row.index() < self.data.len() {
            Some(&self.data[row.index()])
        } else {
            None
        }
    }

    /// The value of an existing row.
    pub fn get_data_unchecked(&self, row: TableRow) -> (r: &Option<Vec<u8>>)
        requires
            row.spec_index() < self.spec_len(),
        ensures
            *r == self.spec_data()[row.spec_index() as int],
    {
        &self.data[row.index()]
    }

    /// The added tick of a row, if it exists.
    pub fn get_added_ticks(&self, row: TableRow) -> (r: Option<&Tick>)
        ensures
            r is Some <==> row.spec_index() < self.spec_added().len(),
            r is Some ==> *r->0 == self.spec_added()[row.spec_index() as int],
    {
        if row.index() < self.added_ticks.len() {
            Some(&self.added_ticks[row.index()])
        } else {
            None
        }
    }

    /// The changed tick of a row, if it exists.
    pub fn get_changed_ticks(&self, row: TableRow) -> (r: Option<&Tick>)
        ensures
            r is Some <==> row.spec_index() < self.spec_changed().len(),
            r is Some ==> *r->0 == self.spec_changed()[row.spec_index() as int],
    {
        if row.index() < self.changed_ticks.len() {
            Some(&self.changed_ticks[row.index()])
        } else {
            None
        }
    }

    /// The ticks of a row, if it exists.
    pub fn get_ticks(&self, row: TableRow) -> (r: Option<ComponentTicks>)
        requires
            self.wf(),
        ensures
            r is Some <==> row.spec_index() < self.spec_len(),
            r is Some ==> r->0.added == self.spec_added()[row.spec_index() as int]
                && r->0.changed == self.spec_changed()[row.spec_index() as int],
    {
        if row.index() < self.data.len() {
            Some(self.get_ticks_unchecked(row))
        } else {
            None
        }
    }

    /// The ticks of an existing row.
    pub fn get_ticks_unchecked(&self, row: TableRow) -> (r: ComponentTicks)
        requires
            self.wf(),
            row.spec_index() < self.spec_len(),
        ensures
            r.added == self.spec_added()[row.spec_index() as int],
            r.changed == self.spec_changed()[row.spec_index() as int],
    {
        ComponentTicks {
            added: self.added_ticks[row.index()],
            changed: self.changed_ticks[row.index()],
        }
    }
}

/// Two columns with the same layout, values and ticks.
pub open spec fn same_contents(a: Column, b: Column) -> bool {
    &&& a.spec_layout() == b.spec_layout()
    &&& a.spec_data() == b.spec_data()
    &&& a.spec_added() == b.spec_added()
    &&& a.spec_changed() == b.spec_changed()
    &&& a.wf() == b.wf()
}

/// `s` after removing the element at `i` and moving the last element there.
pub open spec fn swap_removed<A>(s: Seq<A>, i: int) -> Seq<A> {
    s.update(i, s.last()).drop_last()
}

} // verus!

verus! {

impl Column {
    /// Appends a row that holds no value yet, added and changed at tick zero.
    fn allocate_row(&mut self)
        requires
            old(self).wf(),
        ensures
            final(self).wf(),
            final(self).spec_data() == old(self).spec_data().push(None),
            final(self).spec_added() == old(self).spec_added().push(Tick::spec_zero()),
            final(self).spec_changed() == old(self).spec_changed().push(Tick::spec_zero()),
            final(self).spec_layout() == old(self).spec_layout(),
    {
        self.data.push(None);
        self.added_ticks.push(Tick::new(0));
        self.changed_ticks.push(Tick::new(0));
    }
}

/// Collects the columns of a table under construction.
pub struct TableBuilder {
    column_ids: Vec<ComponentId>,
    columns: Vec<Column>,
    capacity: usize,
}

impl TableBuilder {
    /// The component ids of the columns, in the order they were first added.
    pub closed spec fn spec_column_ids(&self) -> Seq<ComponentId> {
        self.column_ids@
    }

    /// The columns, in the order of `spec_column_ids`.
    pub closed spec fn spec_columns(&self) -> Seq<Column> {
        self.columns@
    }

    /// The capacity each column and the table are created with.
    pub closed spec fn spec_capacity(&self) -> usize {
        self.capacity
    }

    /// One column per id, each id once, every column empty.
    pub closed spec fn wf(&self) -> bool {
        &&& self.column_ids@.len() == self.columns@.len()
        &&& self.column_ids@.no_duplicates()
        &&& forall|i: int|
            0 <= i < self.columns@.len() ==> #[trigger] self.columns@[i].wf()
                && self.columns@[i].spec_len() == 0
    }

    /// A builder for a table of `capacity` rows and about `column_capacity`
    /// columns.
    pub fn with_capacity(capacity: usize, column_capacity: usize) -> (r: Self)
        ensures
            r.wf(),
            r.spec_column_ids() == Seq::<ComponentId>::empty(),
            r.spec_capacity() == capacity,
    {
        Self {
            column_ids: Vec::with_capacity(column_capacity),
            columns: Vec::with_capacity(column_capacity),
            capacity,
        }
    }

    /// Adds an empty column for `component_info`; an existing column for the
    /// same component is replaced.
    pub fn add_column(&mut self, component_info: &ComponentInfo)
        requires
            old(self).wf(),
        ensures
            final(self).wf(),
            final(self).spec_capacity() == old(self).spec_capacity(),
            old(self).spec_column_ids().contains(component_info.spec_id()) ==> final(self).spec_column_ids() == old(self).spec_column_ids(),
            !old(self).spec_column_ids().contains(component_info.spec_id()) ==> final(self).spec_column_ids() == old(self).spec_column_ids().push(component_info.spec_id()),
            forall|i: int|
                0 <= i < final(self).spec_columns().len()
                    && final(self).spec_column_ids()[i] == component_info.spec_id()
                    ==> #[trigger] final(self).spec_columns()[i].spec_layout()
                    == component_info.spec_layout(),
    {
        let id = component_info.id();
        let column = Column::with_capacity(component_info, self.capacity);
        match position_of(&self.column_ids, id) {
            Some(i) => {
                self.columns.set(i, column);
            },
            None => {
                self.column_ids.push(id);
                self.columns.push(column);
            },
        }
    }

    /// The table with the collected columns and no rows.
    pub fn build(self) -> (r: Table)
        requires
            self.wf(),
        ensures
            r.wf(),
            r.spec_entities() == Seq::<Entity>::empty(),
            r.spec_column_ids() == self.spec_column_ids(),
            r.spec_columns() == self.spec_columns(),
            forall|i: int|
                0 <= i < r.spec_columns().len() ==> (#[trigger] r.spec_columns()[i]).spec_len() == 0
                    && r.spec_columns()[i].spec_added().len() == 0 && r.spec_columns()[i].spec_changed().len() == 0,
    {
        proof {
            assert forall|i: int| 0 <= i < self.columns@.len() implies (#[trigger] self.columns@[i]).spec_len() == 0
                && self.columns@[i].spec_added().len() == 0 && self.columns@[i].spec_changed().len() == 0 by {
                assert(self.columns@[i].wf());
            }
        }
        let r = Table {
            column_ids: self.column_ids,
            columns: self.columns,
            rows: Vec::with_capacity(self.capacity),
        };
        proof {
            assert(r.spec_columns() == self.spec_columns());
        }
        r
    }
}

/// The position of `id` in `ids`, if it occurs.
fn position_of(ids: &Vec<ComponentId>, id: ComponentId) -> (r: Option<usize>)
    ensures
        r is Some <==> ids@.contains(id),
        r matches Some(i) ==> i < ids@.len() && ids@[i as int] == id,
        r is None ==> forall|i: int| 0 <= i < ids@.len() ==> ids@[i] != id,
{
    let mut i: usize = 0;
    while i < ids.len()
        invariant
            i <= ids@.len(),
            forall|j: int| 0 <= j < i ==> ids@[j] != id,
        decreases ids@.len() - i,
    {
        if ids[i].index() == id.index() {
            proof {
                ComponentId::lemma_index_injective(ids@[i as int], id);
            }
            return Some(i);
        }
        i = i + 1;
    }
    None
}

/// The storage of the components of the entities whose archetypes share the
/// same table components: one row per entity, one column per component.
pub struct Table {
    column_ids: Vec<ComponentId>,
    columns: Vec<Column>,
    rows: Vec<Entity>,
}

impl Table {
    /// The entity of each row.
    pub closed spec fn spec_entities(&self) -> Seq<Entity> {
        self.rows@
    }

    /// The component ids of the columns.
    pub closed spec fn spec_column_ids(&self) -> Seq<ComponentId> {
        self.column_ids@
    }

    /// The columns, in the order of `spec_column_ids`.
    pub closed spec fn spec_columns(&self) -> Seq<Column> {
        self.columns@
    }

    /// One column per id, each id once, every column with one entry per row.
    pub closed spec fn wf(&self) -> bool {
        &&& self.column_ids@.len() == self.columns@.len()
        &&& self.column_ids@.no_duplicates()
        &&& forall|i: int|
            0 <= i < self.columns@.len() ==> #[trigger] self.columns@[i].wf()
                && self.columns@[i].spec_len() == self.rows@.len()
    }

    /// The number of columns.
    pub fn component_count(&self) -> (r: usize)
        requires
            self.wf(),
        ensures
            r == self.spec_column_ids().len(),
    {
        self.columns.len()
    }

    /// The number of rows.
    pub fn entity_count(&self) -> (r: usize)
        ensures
            r == self.spec_entities().len(),
    {
        self.rows.len()
    }

    /// The number of rows the table can hold without reallocating: at least
    /// the number of rows; beyond that it depends on the allocator.
    pub fn entity_capacity(&self) -> (r: usize)
        ensures
            r >= self.spec_entities().len(),
    {
        vec_capacity(&self.rows)
    }

    pub fn is_empty(&self) -> (r: bool)
        ensures
            r == (self.spec_entities().len() == 0),
    {
        self.rows.len() == 0
    }

    /// The entity of each row.
    pub fn entities(&self) -> (r: &[Entity])
        ensures
            r@ == self.spec_entities(),
    {
        self.rows.as_slice()
    }

    /// Removes every row.
    pub fn clear(&mut self)
        requires
            old(self).wf(),
        ensures
            final(self).wf(),
            final(self).spec_entities() == Seq::<Entity>::empty(),
            final(self).spec_column_ids() == old(self).spec_column_ids(),
            forall|i: int|
                0 <= i < final(self).spec_columns().len() ==> (
                #[trigger] final(self).spec_columns()[i]).spec_layout() == old(self).spec_columns()[i].spec_layout(),
    {
        self.rows.clear();
        let n = self.columns.len();
        let mut i: usize = 0;
        while i < n
            invariant
                n == self.columns@.len(),
                i <= n,
                self.rows@.len() == 0,
                self.column_ids@ == old(self).column_ids@,
                self.column_ids@.len() == n,
                self.column_ids@.no_duplicates(),
                n == old(self).columns@.len(),
                forall|j: int| 0 <= j < n ==> #[trigger] self.columns@[j].wf(),
                forall|j: int| 0 <= j < i ==> #[trigger] self.columns@[j].spec_len() == 0,
                forall|j: int|
                    0 <= j < n ==> (#[trigger] self.columns@[j]).spec_layout() == old(self).columns@[j].spec_layout(),
            decreases n - i,
        {
            self.columns[i].clear();
            i = i + 1;
        }
    }

    /// Whether the table has a column for `component_id`.
    pub fn has_column(&self, component_id: ComponentId) -> (r: bool)
        ensures
            r == self.spec_column_ids().contains(component_id),
    {
        position_of(&self.column_ids, component_id).is_some()
    }

    /// The column for `component_id`, if the table has one.
    pub fn get_column(&self, component_id: ComponentId) -> (r: Option<&Column>)
        requires
            self.wf(),
        ensures
            r is Some <==> self.spec_column_ids().contains(component_id),
            r matches Some(c) ==> exists|i: int|
                0 <= i < self.spec_columns().len() && self.spec_column_ids()[i] == component_id
                    && *c == #[trigger] self.spec_columns()[i],
    {
        match position_of(&self.column_ids, component_id) {
            Some(i) => {
                proof {
                    assert(self.spec_column_ids()[i as int] == component_id);
                    assert(self.columns@[i as int] == self.spec_columns()[i as int]);
                }
                Some(&self.columns[i])
            },
            None => None,
        }
    }

    /// The columns, in the order of `spec_column_ids`.
    pub fn iter(&self) -> (r: Vec<&Column>)
        ensures
            r@.len() == self.spec_columns().len(),
            forall|i: int| 0 <= i < r@.len() ==> *#[trigger] r@[i] == self.spec_columns()[i],
    {
        let mut r: Vec<&Column> = Vec::with_capacity(self.columns.len());
        let mut i: usize = 0;
        while i < self.columns.len()
            invariant
                i <= self.columns@.len(),
                r@.len() == i,
                forall|j: int| 0 <= j < i ==> *#[trigger] r@[j] == self.columns@[j],
            decreases self.columns@.len() - i,
        {
            r.push(&self.columns[i]);
            i = i + 1;
        }
        r
    }

    /// Makes room for `additional` more rows; the rows stay the same.
    pub fn reserve(&mut self, additional: usize)
        requires
            old(self).wf(),
        ensures
            final(self).wf(),
            final(self).spec_entities() == old(self).spec_entities(),
            final(self).spec_column_ids() == old(self).spec_column_ids(),
            final(self).spec_columns().len() == old(self).spec_columns().len(),
            forall|i: int|
                0 <= i < final(self).spec_columns().len() ==> same_contents(
                    #[trigger] final(self).spec_columns()[i],
                    old(self).spec_columns()[i],
                ),
    {
        let cap = vec_capacity(&self.rows);
        if cap - self.rows.len() < additional {
            self.rows.reserve(additional);
            let new_capacity = vec_capacity(&self.rows);
            let n = self.columns.len();
            let mut i: usize = 0;
            while i < n
                invariant
                    n == self.columns@.len(),
                    n == old(self).columns@.len(),
                    i <= n,
                    new_capacity >= self.rows@.len(),
                    self.rows@ == old(self).rows@,
                    self.column_ids@ == old(self).column_ids@,
                    old(self).wf(),
                    forall|j: int|
                        0 <= j < n ==> same_contents(
                            #[trigger] self.columns@[j],
                            old(self).columns@[j],
                        ),
                decreases n - i,
            {
                proof {
                    assert(old(self).columns@[i as int].wf());
                }
                let len = self.columns[i].len();
                self.columns[i].reserve_exact(new_capacity - len);
                i = i + 1;
            }
        } else {
            proof {
                assert(forall|i: int|
                    0 <= i < self.columns@.len() ==> same_contents(
                        #[trigger] self.columns@[i],
                        old(self).columns@[i],
                    ));
            }
        }
    }

    /// Appends a row for `entity` whose component values are not written
    /// yet, and returns it.
    pub fn allocate(&mut self, entity: Entity) -> (r: TableRow)
        requires
            old(self).wf(),
        ensures
            final(self).wf(),
            r.spec_index() == (old(self).spec_entities().len() as usize) as u32,
            final(self).spec_entities() == old(self).spec_entities().push(entity),
            final(self).spec_column_ids() == old(self).spec_column_ids(),
            final(self).spec_columns().len() == old(self).spec_columns().len(),
            forall|i: int|
                0 <= i < final(self).spec_columns().len() ==> {
                    let c = #[trigger] final(self).spec_columns()[i];
                    let o = old(self).spec_columns()[i];
                    &&& c.spec_data() == o.spec_data().push(None)
                    &&& c.spec_added() == o.spec_added().push(Tick::spec_zero())
                    &&& c.spec_changed() == o.spec_changed().push(Tick::spec_zero())
                    &&& c.spec_layout() == o.spec_layout()
                },
    {
        self.reserve(1);
        let index = self.rows.len();
        self.rows.push(entity);
        let ghost mid = self.columns@;
        let n = self.columns.len();
        let mut i: usize = 0;
        while i < n
            invariant
                n == self.columns@.len(),
                n == mid.len(),
                n == old(self).columns@.len(),
                i <= n,
                self.rows@ == old(self).rows@.push(entity),
                self.column_ids@ == old(self).column_ids@,
                old(self).wf(),
                forall|j: int|
                    0 <= j < n ==> same_contents(#[trigger] mid[j], old(self).columns@[j]),
                forall|j: int| i <= j < n ==> #[trigger] self.columns@[j] == mid[j],
                forall|j: int|
                    0 <= j < i ==> {
                        let c = #[trigger] self.columns@[j];
                        let o = old(self).columns@[j];
                        &&& c.wf()
                        &&& c.spec_data() == o.spec_data().push(None)
                        &&& c.spec_added() == o.spec_added().push(Tick::spec_zero())
                        &&& c.spec_changed() == o.spec_changed().push(Tick::spec_zero())
                        &&& c.spec_layout() == o.spec_layout()
                    },
            decreases n - i,
        {
            proof {
                assert(old(self).columns@[i as int].wf());
                assert(same_contents(mid[i as int], old(self).columns@[i as int]));
            }
            self.columns[i].allocate_row();
            i = i + 1;
        }
        proof {
            assert forall|j: int| 0 <= j < self.columns@.len() implies #[trigger] self.columns@[j].wf()
                && self.columns@[j].spec_len() == self.rows@.len() by {
                assert(old(self).columns@[j].wf());
            }
        }
        TableRow::new(index)
    }
}

/// `c` is `o` with row `i` removed and the last row moved into its place.
pub open spec fn column_swap_removed(c: Column, o: Column, i: int) -> bool {
    &&& c.wf()
    &&& c.spec_layout() == o.spec_layout()
    &&& c.spec_data() == swap_removed(o.spec_data(), i)
    &&& c.spec_added() == swap_removed(o.spec_added(), i)
    &&& c.spec_changed() == swap_removed(o.spec_changed(), i)
}

/// `c` is `o` with one more row holding `value`, added at `added` and last
/// changed at `changed`.
pub open spec fn column_pushed(
    c: Column,
    o: Column,
    value: Option<Vec<u8>>,
    added: Tick,
    changed: Tick,
) -> bool {
    &&& c.wf()
    &&& c.spec_layout() == o.spec_layout()
    &&& c.spec_data() == o.spec_data().push(value)
    &&& c.spec_added() == o.spec_added().push(added)
    &&& c.spec_changed() == o.spec_changed().push(changed)
}

/// `c`, the column for `id` of the table an entity moved to (`o` before
/// the move), received the entity's value from row `row` of `src`, or no
/// value at all when `src` has no column for `id`.
pub open spec fn column_received(c: Column, o: Column, src: Table, id: ComponentId, row: int) -> bool {
    &&& forall|i: int|
        0 <= i < src.spec_column_ids().len() && src.spec_column_ids()[i] == id
            ==> column_pushed(
            c,
            o,
            #[trigger] src.spec_columns()[i].spec_data()[row],
            src.spec_columns()[i].spec_added()[row],
            src.spec_columns()[i].spec_changed()[row],
        )
    &&& !src.spec_column_ids().contains(id) ==> column_pushed(
        c,
        o,
        None,
        Tick::spec_zero(),
        Tick::spec_zero(),
    )
}

/// The entity that a swap-remove of row `row` out of `entities` moves into
/// that row: none when the row was the last.
pub open spec fn swapped_in(entities: Seq<Entity>, row: int) -> Option<Entity> {
    if row == entities.len() - 1 {
        None
    } else {
        Some(entities.last())
    }
}

/// Where an entity went in the table it moved to, and which entity took its
/// row in the table it left.
#[derive(Clone, Copy, Debug)]
pub struct TableMoveResult {
    pub table_row: TableRow,
    pub swapped_entity: Option<Entity>,
}

impl Table {
    /// Removes a row; the last row takes its place. Returns the entity that
    /// was moved into the row, if any.
    pub fn swap_remove_unchecked(&mut self, row: TableRow) -> (r: Option<Entity>)
        requires
            old(self).wf(),
            row.spec_index() < old(self).spec_entities().len(),
        ensures
            final(self).wf(),
            final(self).spec_entities() == swap_removed(
                old(self).spec_entities(),
                row.spec_index() as int,
            ),
            final(self).spec_column_ids() == old(self).spec_column_ids(),
            final(self).spec_columns().len() == old(self).spec_columns().len(),
            forall|i: int|
                0 <= i < final(self).spec_columns().len() ==> column_swap_removed(
                    #[trigger] final(self).spec_columns()[i],
                    old(self).spec_columns()[i],
                    row.spec_index() as int,
                ),
            r == swapped_in(old(self).spec_entities(), row.spec_index() as int),
    {
        let is_last = row.index() == self.rows.len() - 1;
        self.rows.swap_remove(row.index());
        proof {
            assert forall|i: int| 0 <= i < self.columns@.len() implies (#[trigger] self.columns@[i]).wf()
                && self.columns@[i].spec_len() == self.rows@.len() + 1 by {
                assert(old(self).columns@[i].wf());
            }
        }
        self.swap_remove_columns(row);
        if is_last {
            None
        } else {
            Some(self.rows[row.index()])
        }
    }

    /// Swap-removes `row` from every column.
    fn swap_remove_columns(&mut self, row: TableRow)
        requires
            old(self).column_ids@.len() == old(self).columns@.len(),
            old(self).column_ids@.no_duplicates(),
            forall|i: int|
                0 <= i < old(self).columns@.len() ==> (#[trigger] old(self).columns@[i]).wf()
                    && old(self).columns@[i].spec_len() == old(self).rows@.len() + 1,
            row.spec_index() <= old(self).rows@.len(),
        ensures
            final(self).wf(),
            final(self).rows@ == old(self).rows@,
            final(self).column_ids@ == old(self).column_ids@,
            final(self).columns@.len() == old(self).columns@.len(),
            forall|i: int|
                0 <= i < final(self).columns@.len() ==> column_swap_removed(
                    #[trigger] final(self).columns@[i],
                    old(self).columns@[i],
                    row.spec_index() as int,
                ),
    {
        let ghost cols = self.columns@;
        let ghost len = self.rows@.len();
        let n = self.columns.len();
        let mut i: usize = 0;
        while i < n
            invariant
                n == self.columns@.len(),
                n == old(self).columns@.len(),
                cols == old(self).columns@,
                len == old(self).rows@.len(),
                i <= n,
                self.rows@ == old(self).rows@,
                self.column_ids@ == old(self).column_ids@,
                n == self.column_ids@.len(),
                self.column_ids@.no_duplicates(),
                row.spec_index() <= self.rows@.len(),
                forall|j: int| 0 <= j < cols.len() ==> (#[trigger] cols[j]).wf() && cols[j].spec_len() == len + 1,
                forall|j: int| i <= j < n ==> #[trigger] self.columns@[j] == old(self).columns@[j],
                forall|j: int|
                    0 <= j < i ==> column_swap_removed(
                        #[trigger] self.columns@[j],
                        old(self).columns@[j],
                        row.spec_index() as int,
                    ),
            decreases n - i,
        {
            proof {
                assert(old(self).columns@[i as int].wf());
            }
            self.columns[i].swap_remove_unchecked(row);
            i = i + 1;
        }
        proof {
            assert forall|j: int| 0 <= j < self.columns@.len() implies #[trigger] self.columns@[j].wf()
                && self.columns@[j].spec_len() == self.rows@.len() by {
                assert(column_swap_removed(self.columns@[j], old(self).columns@[j], row.spec_index() as int));
                assert(old(self).columns@[j].wf());
            }
        }
    }

    /// Moves the entity at `row` to a new row of `new_table`. Each value of a
    /// component that `new_table` has goes with it; the others are taken out
    /// of this table, and handed back when `forget_missing` is set (the
    /// caller then owns them).
    fn move_row_unchecked(
        &mut self,
        row: TableRow,
        new_table: &mut Table,
        forget_missing: bool,
    ) -> (r: TableMoveResult)
        requires
            old(self).wf(),
            old(new_table).wf(),
            row.spec_index() < old(self).spec_entities().len(),
            old(new_table).spec_entities().len() < u32::MAX,
        ensures
            final(self).wf(),
            final(new_table).wf(),
            final(self).spec_entities() == swap_removed(
                old(self).spec_entities(),
                row.spec_index() as int,
            ),
            final(self).spec_column_ids() == old(self).spec_column_ids(),
            final(self).spec_columns().len() == old(self).spec_columns().len(),
            forall|i: int|
                0 <= i < final(self).spec_columns().len() ==> column_swap_removed(
                    #[trigger] final(self).spec_columns()[i],
                    old(self).spec_columns()[i],
                    row.spec_index() as int,
                ),
            final(new_table).spec_entities() == old(new_table).spec_entities().push(
                old(self).spec_entities()[row.spec_index() as int],
            ),
            final(new_table).spec_column_ids() == old(new_table).spec_column_ids(),
            final(new_table).spec_columns().len() == old(new_table).spec_columns().len(),
            forall|j: int|
                0 <= j < final(new_table).spec_columns().len() ==> column_received(
                    #[trigger] final(new_table).spec_columns()[j],
                    old(new_table).spec_columns()[j],
                    *old(self),
                    old(new_table).spec_column_ids()[j],
                    row.spec_index() as int,
                ),
            r.table_row.spec_index() == old(new_table).spec_entities().len(),
            r.swapped_entity == swapped_in(old(self).spec_entities(), row.spec_index() as int),
    {
        let is_last = row.index() == self.rows.len() - 1;
        let entity = self.rows.swap_remove(row.index());
        let new_row = new_table.allocate(entity);
        let ghost mid_new = new_table.columns@;
        let n = self.columns.len();
        let mut i: usize = 0;
        while i < n
            invariant
                n == self.columns@.len(),
                n == old(self).columns@.len(),
                i <= n,
                old(self).wf(),
                old(new_table).wf(),
                row.spec_index() < old(self).rows@.len(),
                self.rows@ == swap_removed(old(self).rows@, row.spec_index() as int),
                self.column_ids@ == old(self).column_ids@,
                forall|j: int| i <= j < n ==> #[trigger] self.columns@[j] == old(self).columns@[j],
                forall|j: int|
                    0 <= j < i ==> column_swap_removed(
                        #[trigger] self.columns@[j],
                        old(self).columns@[j],
                        row.spec_index() as int,
                    ),
                new_row.spec_index() == old(new_table).rows@.len(),
                new_table.rows@ == old(new_table).rows@.push(entity),
                new_table.column_ids@ == old(new_table).column_ids@,
                new_table.columns@.len() == old(new_table).columns@.len(),
                mid_new.len() == old(new_table).columns@.len(),
                forall|k: int|
                    0 <= k < mid_new.len() ==> column_pushed(
                        #[trigger] mid_new[k],
                        old(new_table).columns@[k],
                        None,
                        Tick::spec_zero(),
                        Tick::spec_zero(),
                    ),
                forall|k: int|
                    0 <= k < new_table.columns@.len() ==> {
                        let id = new_table.column_ids@[k];
                        &&& (forall|j: int|
                            0 <= j < i && old(self).column_ids@[j] == id ==> column_pushed(
                                #[trigger] new_table.columns@[k],
                                old(new_table).columns@[k],
                                old(self).columns@[j].spec_data()[row.spec_index() as int],
                                old(self).columns@[j].spec_added()[row.spec_index() as int],
                                old(self).columns@[j].spec_changed()[row.spec_index() as int],
                            ))
                        &&& ((forall|j: int|
                            0 <= j < i ==> old(self).column_ids@[j] != id)
                            ==> #[trigger] new_table.columns@[k] == mid_new[k])
                    },
            decreases n - i,
        {
            proof {
                assert(old(self).columns@[i as int].wf());
            }
            let id = self.column_ids[i];
            match position_of(&new_table.column_ids, id) {
                Some(k) => {
                    proof {
                        assert(new_table.column_ids@[k as int] == id);
                        assert(forall|j: int| 0 <= j < i ==> old(self).column_ids@[j] != id) by {
                            assert(old(self).column_ids@.no_duplicates());
                        }
                        assert(new_table.columns@[k as int] == mid_new[k as int]);
                        assert(old(new_table).columns@[k as int].wf());
                        assert(old(self).columns@[i as int].wf());
                        assert(column_pushed(
                            mid_new[k as int],
                            old(new_table).columns@[k as int],
                            None,
                            Tick::spec_zero(),
                            Tick::spec_zero(),
                        ));
                    }
                    let ghost before_new = new_table.columns@;
                    new_table.columns[k].initialize_from_unchecked(
                        new_row,
                        &mut self.columns[i],
                        row,
                    );
                    proof {
                        let c = new_table.columns@[k as int];
                        let o = old(new_table).columns@[k as int];
                        let m = mid_new[k as int];
                        let sc = old(self).columns@[i as int];
                        let rr = row.spec_index() as int;
                        let last = o.spec_data().len() as int;
                        assert(new_row.spec_index() == last);
                        assert(m.spec_data().update(last, sc.spec_data()[rr]) =~= o.spec_data().push(sc.spec_data()[rr]));
                        assert(m.spec_added().update(last, sc.spec_added()[rr]) =~= o.spec_added().push(sc.spec_added()[rr]));
                        assert(m.spec_changed().update(last, sc.spec_changed()[rr]) =~= o.spec_changed().push(sc.spec_changed()[rr]));
                        assert(c.spec_data() == o.spec_data().push(
                            old(self).columns@[i as int].spec_data()[row.spec_index() as int],
                        ));
                        assert(c.spec_added() == o.spec_added().push(
                            old(self).columns@[i as int].spec_added()[row.spec_index() as int],
                        ));
                        assert(c.spec_changed() == o.spec_changed().push(
                            old(self).columns@[i as int].spec_changed()[row.spec_index() as int],
                        ));
                        assert forall|kk: int| 0 <= kk < new_table.columns@.len() && kk != k implies #[trigger] new_table.columns@[kk]
                            == before_new[kk] by {
                        }
                        assert forall|kk: int| 0 <= kk < new_table.columns@.len() && kk != k implies new_table.column_ids@[kk] != id by {
                            assert(new_table.column_ids@.no_duplicates());
                        }
                    }
                },
                None => {
                    if forget_missing {
                        let _ = self.columns[i].swap_remove_and_forget_unchecked(row);
                    } else {
                        self.columns[i].swap_remove_unchecked(row);
                    }
                    proof {
                        assert forall|kk: int| 0 <= kk < new_table.columns@.len() implies new_table.column_ids@[kk] != id by {
                        }
                    }
                },
            }
            proof {
                assert(self.column_ids@[i as int] == id);
            }
            i = i + 1;
        }
        proof {
            assert forall|j: int| 0 <= j < self.columns@.len() implies #[trigger] self.columns@[j].wf()
                && self.columns@[j].spec_len() == self.rows@.len() by {
                assert(old(self).columns@[j].wf());
            }
            assert forall|k: int| 0 <= k < new_table.columns@.len() implies #[trigger] new_table.columns@[k].wf()
                && new_table.columns@[k].spec_len() == new_table.rows@.len() by {
                let id = new_table.column_ids@[k];
                assert(old(new_table).columns@[k].wf());
                if exists|j: int| 0 <= j < n && old(self).column_ids@[j] == id {
                    let j = choose|j: int| 0 <= j < n && old(self).column_ids@[j] == id;
                    assert(old(self).columns@[j].wf());
                } else {
                    assert(mid_new[k].wf());
                }
            }
            assert forall|k: int| 0 <= k < new_table.columns@.len() implies column_received(
                #[trigger] new_table.columns@[k],
                old(new_table).columns@[k],
                *old(self),
                old(new_table).column_ids@[k],
                row.spec_index() as int,
            ) by {
                let id = new_table.column_ids@[k];
                if !old(self).column_ids@.contains(id) {
                    assert forall|j: int| 0 <= j < n implies old(self).column_ids@[j] != id by {
                        if old(self).column_ids@[j] == id {
                            assert(old(self).column_ids@.contains(id));
                        }
                    }
                }
            }
        }
        TableMoveResult {
            table_row: new_row,
            swapped_entity: if is_last {
                None
            } else {
                Some(self.rows[row.index()])
            },
        }
    }
}

/// The entity at `row` of `src` (`old_src` before) moved to a new row of
/// `dst` (`old_dst` before), as `r` reports: the row is swap-removed from
/// `src` and every column of it, and `dst` gains the entity and, in each
/// column, the entity's value where `src` had one for that component.
pub open spec fn row_moved(
    old_src: Table,
    src: Table,
    old_dst: Table,
    dst: Table,
    row: int,
    r: TableMoveResult,
) -> bool {
    &&& src.spec_entities() == swap_removed(old_src.spec_entities(), row)
    &&& src.spec_column_ids() == old_src.spec_column_ids()
    &&& src.spec_columns().len() == old_src.spec_columns().len()
    &&& forall|i: int|
        0 <= i < src.spec_columns().len() ==> column_swap_removed(
            #[trigger] src.spec_columns()[i],
            old_src.spec_columns()[i],
            row,
        )
    &&& dst.spec_entities() == old_dst.spec_entities().push(old_src.spec_entities()[row])
    &&& dst.spec_column_ids() == old_dst.spec_column_ids()
    &&& dst.spec_columns().len() == old_dst.spec_columns().len()
    &&& forall|j: int|
        0 <= j < dst.spec_columns().len() ==> column_received(
            #[trigger] dst.spec_columns()[j],
            old_dst.spec_columns()[j],
            old_src,
            old_dst.spec_column_ids()[j],
            row,
        )
    &&& r.table_row.spec_index() == old_dst.spec_entities().len()
    &&& r.swapped_entity == swapped_in(old_src.spec_entities(), row)
}

impl Table {
    /// Moves the entity at `row`, with all its values, to a new row of
    /// `new_table`, which has a column for every component of this table.
    /// The last row of this table takes the place of the moved one.
    pub fn move_to_superset_unchecked(&mut self, row: TableRow, new_table: &mut Table) -> (r:
        TableMoveResult)
        requires
            old(self).wf(),
            old(new_table).wf(),
            row.spec_index() < old(self).spec_entities().len(),
            old(new_table).spec_entities().len() < u32::MAX,
            forall|i: int|
                0 <= i < old(self).spec_column_ids().len() ==> old(
                    new_table,
                ).spec_column_ids().contains(#[trigger] old(self).spec_column_ids()[i]),
        ensures
            final(self).wf(),
            final(new_table).wf(),
            row_moved(
                *old(self),
                *final(self),
                *old(new_table),
                *final(new_table),
                row.spec_index() as int,
                r,
            ),
    {
        self.move_row_unchecked(row, new_table, false)
    }

    /// Moves the entity at `row` to a new row of `new_table`, with the values
    /// of the components that `new_table` has; the other values are dropped.
    /// The last row of this table takes the place of the moved one.
    pub fn move_to_and_drop_missing_unchecked(&mut self, row: TableRow, new_table: &mut Table) -> (r:
        TableMoveResult)
        requires
            old(self).wf(),
            old(new_table).wf(),
            row.spec_index() < old(self).spec_entities().len(),
            old(new_table).spec_entities().len() < u32::MAX,
        ensures
            final(self).wf(),
            final(new_table).wf(),
            row_moved(
                *old(self),
                *final(self),
                *old(new_table),
                *final(new_table),
                row.spec_index() as int,
                r,
            ),
    {
        self.move_row_unchecked(row, new_table, false)
    }

    /// Moves the entity at `row` to a new row of `new_table`, with the values
    /// of the components that `new_table` has; the other values are taken
    /// out without being dropped, for the caller to dispose of. The last row
    /// of this table takes the place of the moved one.
    pub fn move_to_and_forget_missing_unchecked(&mut self, row: TableRow, new_table: &mut Table) -> (r:
        TableMoveResult)
        requires
            old(self).wf(),
            old(new_table).wf(),
            row.spec_index() < old(self).spec_entities().len(),
            old(new_table).spec_entities().len() < u32::MAX,
        ensures
            final(self).wf(),
            final(new_table).wf(),
            row_moved(
                *old(self),
                *final(self),
                *old(new_table),
                *final(new_table),
                row.spec_index() as int,
                r,
            ),
    {
        self.move_row_unchecked(row, new_table, true)
    }
}

impl Table {
    /// The column for `component_id`, to change in place, if the table has
    /// one. The table afterwards holds whatever the column was changed to.
    pub fn get_column_mut(&mut self, component_id: ComponentId) -> (r: Option<&mut Column>)
        requires
            old(self).wf(),
        ensures
            r is Some <==> old(self).spec_column_ids().contains(component_id),
            r is None ==> *final(self) == *old(self),
            final(self).spec_entities() == old(self).spec_entities(),
            final(self).spec_column_ids() == old(self).spec_column_ids(),
            final(self).spec_columns().len() == old(self).spec_columns().len(),
            r matches Some(c) ==> exists|i: int|
                0 <= i < old(self).spec_columns().len() && #[trigger] old(self).spec_column_ids()[i]
                    == component_id && *c == old(self).spec_columns()[i]
                    && final(self).spec_columns() == old(self).spec_columns().update(i, *final(c)),
    {
        match position_of(&self.column_ids, component_id) {
            Some(i) => {
                proof {
                    assert(old(self).spec_column_ids()[i as int] == component_id);
                }
                Some(&mut self.columns[i])
            },
            None => None,
        }
    }
}

impl Table {
    /// Appends a row for the entity at `src_row` of `src_table` and moves into
    /// it the entity's values of the components this table has. The values
    /// leave their columns in `src_table` by swap-remove; the rows of
    /// `src_table` are left as they are, for the caller to fix.
    pub fn copy_from_unchecked(&mut self, src_table: &mut Table, src_row: TableRow) -> (r:
        TableRow)
        requires
            old(self).wf(),
            old(src_table).wf(),
            src_row.spec_index() < old(src_table).spec_entities().len(),
            old(self).spec_entities().len() < u32::MAX,
        ensures
            final(self).wf(),
            r.spec_index() == old(self).spec_entities().len(),
            final(self).spec_entities() == old(self).spec_entities().push(
                old(src_table).spec_entities()[src_row.spec_index() as int],
            ),
            final(self).spec_column_ids() == old(self).spec_column_ids(),
            final(self).spec_columns().len() == old(self).spec_columns().len(),
            forall|k: int|
                0 <= k < final(self).spec_columns().len() ==> column_received(
                    #[trigger] final(self).spec_columns()[k],
                    old(self).spec_columns()[k],
                    *old(src_table),
                    old(self).spec_column_ids()[k],
                    src_row.spec_index() as int,
                ),
            final(src_table).spec_entities() == old(src_table).spec_entities(),
            final(src_table).spec_column_ids() == old(src_table).spec_column_ids(),
            final(src_table).spec_columns().len() == old(src_table).spec_columns().len(),
            forall|j: int|
                0 <= j < final(src_table).spec_columns().len() ==> if old(
                    self,
                ).spec_column_ids().contains(old(src_table).spec_column_ids()[j]) {
                    column_swap_removed(
                        #[trigger] final(src_table).spec_columns()[j],
                        old(src_table).spec_columns()[j],
                        src_row.spec_index() as int,
                    )
                } else {
                    final(src_table).spec_columns()[j] == old(src_table).spec_columns()[j]
                },
    {
        let entity = src_table.rows[src_row.index()];
        let dst_row = self.allocate(entity);
        let ghost mid = self.columns@;
        let n = self.columns.len();
        let mut k: usize = 0;
        while k < n
            invariant
                n == self.columns@.len(),
                n == old(self).columns@.len(),
                n == mid.len(),
                k <= n,
                old(self).wf(),
                old(src_table).wf(),
                src_row.spec_index() < old(src_table).rows@.len(),
                dst_row.spec_index() == old(self).rows@.len(),
                self.rows@ == old(self).rows@.push(entity),
                self.column_ids@ == old(self).column_ids@,
                src_table.rows@ == old(src_table).rows@,
                src_table.column_ids@ == old(src_table).column_ids@,
                src_table.columns@.len() == old(src_table).columns@.len(),
                forall|kk: int|
                    0 <= kk < n ==> column_pushed(
                        #[trigger] mid[kk],
                        old(self).columns@[kk],
                        None,
                        Tick::spec_zero(),
                        Tick::spec_zero(),
                    ),
                forall|kk: int| k <= kk < n ==> #[trigger] self.columns@[kk] == mid[kk],
                forall|kk: int|
                    0 <= kk < k ==> column_received(
                        #[trigger] self.columns@[kk],
                        old(self).columns@[kk],
                        *old(src_table),
                        old(self).column_ids@[kk],
                        src_row.spec_index() as int,
                    ),
                forall|j: int|
                    0 <= j < src_table.columns@.len() ==> {
                        let id = src_table.column_ids@[j];
                        &&& prefix_has(old(self).column_ids@, k as int, id)
                            ==> column_swap_removed(
                            #[trigger] src_table.columns@[j],
                            old(src_table).columns@[j],
                            src_row.spec_index() as int,
                        )
                        &&& !prefix_has(old(self).column_ids@, k as int, id)
                            ==> src_table.columns@[j] == old(src_table).columns@[j]
                    },
            decreases n - k,
        {
            let id = self.column_ids[k];
            proof {
                assert(column_pushed(
                    mid[k as int],
                    old(self).columns@[k as int],
                    None,
                    Tick::spec_zero(),
                    Tick::spec_zero(),
                ));
                assert(old(self).columns@[k as int].wf());
            }
            match position_of(&src_table.column_ids, id) {
                Some(j) => {
                    proof {
                        assert(src_table.column_ids@[j as int] == id);
                        assert(!prefix_has(old(self).column_ids@, k as int, id)) by {
                            assert(old(self).column_ids@.no_duplicates());
                        }
                        assert(src_table.columns@[j as int] == old(src_table).columns@[j as int]);
                        assert(old(src_table).columns@[j as int].wf());
                    }
                    let ghost before_src = src_table.columns@;
                    self.columns[k].initialize_from_unchecked(
                        dst_row,
                        &mut src_table.columns[j],
                        src_row,
                    );
                    proof {
                        let c = self.columns@[k as int];
                        let o = old(self).columns@[k as int];
                        let m = mid[k as int];
                        let sc = old(src_table).columns@[j as int];
                        let rr = src_row.spec_index() as int;
                        let last = o.spec_data().len() as int;
                        assert(m.spec_data().update(last, sc.spec_data()[rr]) =~= o.spec_data().push(sc.spec_data()[rr]));
                        assert(m.spec_added().update(last, sc.spec_added()[rr]) =~= o.spec_added().push(sc.spec_added()[rr]));
                        assert(m.spec_changed().update(last, sc.spec_changed()[rr]) =~= o.spec_changed().push(sc.spec_changed()[rr]));
                        assert forall|i: int| 0 <= i < old(src_table).column_ids@.len() && old(src_table).column_ids@[i] == id implies i == j by {
                            assert(old(src_table).column_ids@.no_duplicates());
                        }
                        assert(!old(src_table).column_ids@.contains(id) == false);
                        assert forall|jj: int| 0 <= jj < src_table.columns@.len() && jj != j implies #[trigger] src_table.columns@[jj]
                            == before_src[jj] by {
                        }
                        assert forall|jj: int| 0 <= jj < src_table.columns@.len() && jj != j implies src_table.column_ids@[jj] != id by {
                            assert(src_table.column_ids@.no_duplicates());
                        }
                    }
                },
                None => {
                    proof {
                        assert(!old(src_table).column_ids@.contains(id));
                    }
                },
            }
            proof {
                assert(self.column_ids@[k as int] == id);
                lemma_prefix_has_step(old(self).column_ids@, k as int);
            }
            k = k + 1;
        }
        proof {
            assert forall|kk: int| 0 <= kk < self.columns@.len() implies #[trigger] self.columns@[kk].wf()
                && self.columns@[kk].spec_len() == self.rows@.len() by {
                assert(old(self).columns@[kk].wf());
                let id = old(self).column_ids@[kk];
                if old(src_table).column_ids@.contains(id) {
                    let i = choose|i: int| 0 <= i < old(src_table).column_ids@.len() && old(src_table).column_ids@[i] == id;
                    let rr = src_row.spec_index() as int;
                    assert(column_received(self.columns@[kk], old(self).columns@[kk], *old(src_table), id, rr));
                    assert(column_pushed(
                        self.columns@[kk],
                        old(self).columns@[kk],
                        old(src_table).spec_columns()[i].spec_data()[rr],
                        old(src_table).spec_columns()[i].spec_added()[rr],
                        old(src_table).spec_columns()[i].spec_changed()[rr],
                    ));
                } else {
                    assert(column_received(self.columns@[kk], old(self).columns@[kk], *old(src_table), id, src_row.spec_index() as int));
                }
            }
            assert forall|j: int| 0 <= j < src_table.columns@.len() implies (if old(self).column_ids@.contains(old(src_table).column_ids@[j]) {
                    column_swap_removed(
                        #[trigger] src_table.columns@[j],
                        old(src_table).columns@[j],
                        src_row.spec_index() as int,
                    )
                } else {
                    src_table.columns@[j] == old(src_table).columns@[j]
                }) by {
                let id = src_table.column_ids@[j];
                if old(self).column_ids@.contains(id) {
                    let kk = choose|kk: int| 0 <= kk < old(self).column_ids@.len() && old(self).column_ids@[kk] == id;
                    assert(prefix_has(old(self).column_ids@, n as int, id));
                } else {
                    if prefix_has(old(self).column_ids@, n as int, id) {
                        let kk = choose|kk: int| 0 <= kk < n && kk < old(self).column_ids@.len() && old(self).column_ids@[kk] == id;
                        assert(old(self).column_ids@.contains(id));
                    }
                }
            }
        }
        dst_row
    }
}

/// Whether the ids of `a` and `b` are the same, in the same order.
pub(crate) fn same_ids(a: &Vec<ComponentId>, b: &[ComponentId]) -> (r: bool)
    ensures
        r == (a@ == b@),
{
    if a.len() != b.len() {
        return false;
    }
    let mut i: usize = 0;
    while i < a.len()
        invariant
            a@.len() == b@.len(),
            i <= a@.len(),
            forall|j: int| 0 <= j < i ==> a@[j] == b@[j],
        decreases a@.len() - i,
    {
        if a[i].index() != b[i].index() {
            return false;
        }
        proof {
            ComponentId::lemma_index_injective(a@[i as int], b@[i as int]);
        }
        i = i + 1;
    }
    assert(a@ =~= b@);
    true
}

/// The tables of a world, by id, and the id of the table made for each list
/// of component ids.
pub struct Tables {
    tables: Vec<Table>,
    table_ids: Vec<(Vec<ComponentId>, TableId)>,
}

impl Tables {
    /// The tables, by id.
    pub closed spec fn spec_tables(&self) -> Seq<Table> {
        self.tables@
    }

    /// The component ids that a table was made for, and its id, in the order
    /// the tables were made.
    pub closed spec fn spec_keys(&self) -> Seq<(Seq<ComponentId>, TableId)> {
        self.table_ids@.map_values(|e: (Vec<ComponentId>, TableId)| (e.0@, e.1))
    }

    /// Every table is well formed; each list of ids was made into one table,
    /// whose columns are those ids.
    pub closed spec fn wf(&self) -> bool {
        &&& forall|i: int| 0 <= i < self.tables@.len() ==> (#[trigger] self.tables@[i]).wf()
        &&& forall|k: int|
            0 <= k < self.table_ids@.len() ==> {
                let e = #[trigger] self.table_ids@[k];
                &&& e.1.spec_index() < self.tables@.len()
                &&& self.tables@[e.1.spec_index() as int].spec_column_ids() == e.0@
            }
        &&& forall|k: int, l: int|
            0 <= k < l < self.table_ids@.len() ==> (#[trigger] self.table_ids@[k]).0@
                != (#[trigger] self.table_ids@[l]).0@
    }

    /// The id of the table made for `ids`, if one was.
    pub open spec fn spec_id_of(&self, ids: Seq<ComponentId>) -> Option<TableId> {
        if exists|k: int| 0 <= k < self.spec_keys().len() && (#[trigger] self.spec_keys()[k]).0 == ids {
            Some(
                self.spec_keys()[choose|k: int|
                    0 <= k < self.spec_keys().len() && (#[trigger] self.spec_keys()[k]).0 == ids].1,
            )
        } else {
            None
        }
    }

    /// The tables with just the table without components, under id zero.
    pub fn new() -> (r: Tables)
        ensures
            r.wf(),
            r.spec_tables().len() == 1,
            r.spec_tables()[0].spec_entities() == Seq::<Entity>::empty(),
            r.spec_tables()[0].spec_column_ids() == Seq::<ComponentId>::empty(),
            r.spec_keys() == Seq::<(Seq<ComponentId>, TableId)>::empty(),
    {
        let empty_table = TableBuilder::with_capacity(0, 0).build();
        let mut tables: Vec<Table> = Vec::new();
        tables.push(empty_table);
        let r = Tables { tables, table_ids: Vec::new() };
        proof {
            assert(r.spec_keys() =~= Seq::<(Seq<ComponentId>, TableId)>::empty());
        }
        r
    }

    /// The number of tables.
    pub fn len(&self) -> (r: usize)
        ensures
            r == self.spec_tables().len(),
    {
        self.tables.len()
    }

    /// Whether there are no tables.
    pub fn is_empty(&self) -> (r: bool)
        ensures
            r == (self.spec_tables().len() == 0),
    {
        self.tables.len() == 0
    }

    /// The table with id `id`, if it exists.
    pub fn get(&self, id: TableId) -> (r: Option<&Table>)
        ensures
            r is Some <==> id.spec_index() < self.spec_tables().len(),
            r matches Some(t) ==> *t == self.spec_tables()[id.spec_index() as int],
    {
        if id.index() < self.tables.len() {
            Some(&self.tables[id.index()])
        } else {
            None
        }
    }

    /// The table with id `id`, to change in place, if it exists.
    pub fn get_mut(&mut self, id: TableId) -> (r: Option<&mut Table>)
        ensures
            r is Some <==> id.spec_index() < old(self).spec_tables().len(),
            r is None ==> *final(self) == *old(self),
            r matches Some(t) ==> *t == old(self).spec_tables()[id.spec_index() as int]
                && final(self).spec_tables() == old(self).spec_tables().update(
                id.spec_index() as int,
                *final(t),
            ) && final(self).spec_keys() == old(self).spec_keys(),
    {
        if id.index() < self.tables.len() {
            Some(&mut self.tables[id.index()])
        } else {
            None
        }
    }

    /// The tables, by id.
    pub fn iter(&self) -> (r: Vec<&Table>)
        ensures
            r@.len() == self.spec_tables().len(),
            forall|i: int| 0 <= i < r@.len() ==> *#[trigger] r@[i] == self.spec_tables()[i],
    {
        let mut r: Vec<&Table> = Vec::with_capacity(self.tables.len());
        let mut i: usize = 0;
        while i < self.tables.len()
            invariant
                i <= self.tables@.len(),
                r@.len() == i,
                forall|j: int| 0 <= j < i ==> *#[trigger] r@[j] == self.tables@[j],
            decreases self.tables@.len() - i,
        {
            r.push(&self.tables[i]);
            i = i + 1;
        }
        r
    }

    /// Removes every row of every table.
    pub fn clear(&mut self)
        requires
            old(self).wf(),
        ensures
            final(self).wf(),
            final(self).spec_keys() == old(self).spec_keys(),
            final(self).spec_tables().len() == old(self).spec_tables().len(),
            forall|i: int|
                0 <= i < final(self).spec_tables().len() ==> {
                    let t = #[trigger] final(self).spec_tables()[i];
                    &&& t.spec_entities() == Seq::<Entity>::empty()
                    &&& t.spec_column_ids() == old(self).spec_tables()[i].spec_column_ids()
                },
    {
        let n = self.tables.len();
        let mut i: usize = 0;
        while i < n
            invariant
                n == self.tables@.len(),
                n == old(self).tables@.len(),
                i <= n,
                self.table_ids@ == old(self).table_ids@,
                old(self).wf(),
                forall|j: int| i <= j < n ==> #[trigger] self.tables@[j] == old(self).tables@[j],
                forall|j: int|
                    0 <= j < i ==> {
                        let t = #[trigger] self.tables@[j];
                        &&& t.wf()
                        &&& t.spec_entities() == Seq::<Entity>::empty()
                        &&& t.spec_column_ids() == old(self).tables@[j].spec_column_ids()
                    },
            decreases n - i,
        {
            proof {
                assert(old(self).tables@[i as int].wf());
            }
            self.tables[i].clear();
            i = i + 1;
        }
        proof {
            assert forall|i: int| 0 <= i < self.tables@.len() implies (#[trigger] self.tables@[i]).wf() by {
            }
            assert forall|k: int| 0 <= k < self.table_ids@.len() implies {
                let e = #[trigger] self.table_ids@[k];
                &&& e.1.spec_index() < self.tables@.len()
                &&& self.tables@[e.1.spec_index() as int].spec_column_ids() == e.0@
            } by {
                let e = self.table_ids@[k];
                assert(old(self).table_ids@[k] == e);
            }
        }
    }

    /// The id of the table for the components `component_ids`, which must all
    /// be registered and each given once; the table is made, with one empty
    /// column per component, when there is none yet.
    pub fn get_id_or_insert(&mut self, component_ids: &[ComponentId], components: &Components) -> (r:
        TableId)
        requires
            old(self).wf(),
            components.wf(),
            component_ids@.no_duplicates(),
            forall|i: int| 0 <= i < component_ids@.len() ==> components.spec_has(#[trigger] component_ids@[i]),
            old(self).spec_tables().len() <= u32::MAX,
        ensures
            final(self).wf(),
            old(self).spec_id_of(component_ids@) matches Some(id) ==> r == id && *final(self) == *old(self),
            old(self).spec_id_of(component_ids@) is None ==> {
                &&& r.spec_index() == old(self).spec_tables().len()
                &&& final(self).spec_tables().len() == old(self).spec_tables().len() + 1
                &&& final(self).spec_tables().drop_last() == old(self).spec_tables()
                &&& final(self).spec_tables().last().spec_column_ids() == component_ids@
                &&& final(self).spec_tables().last().spec_entities() == Seq::<Entity>::empty()
                &&& final(self).spec_keys() == old(self).spec_keys().push((component_ids@, r))
            },
            final(self).spec_id_of(component_ids@) == Some(r),
            r.spec_index() < final(self).spec_tables().len(),
            final(self).spec_tables()[r.spec_index() as int].spec_column_ids() == component_ids@,
    {
        let mut k: usize = 0;
        while k < self.table_ids.len()
            invariant
                k <= self.table_ids@.len(),
                self.wf(),
                *self == *old(self),
                forall|j: int| 0 <= j < k ==> (#[trigger] self.table_ids@[j]).0@ != component_ids@,
            decreases self.table_ids@.len() - k,
        {
            if same_ids(&self.table_ids[k].0, component_ids) {
                let id = self.table_ids[k].1;
                proof {
                    let keys = self.spec_keys();
                    assert(keys[k as int].0 == component_ids@);
                    let c = choose|c: int| 0 <= c < keys.len() && (#[trigger] keys[c]).0 == component_ids@;
                    if c != k {
                        if c < k {
                            assert(self.table_ids@[c].0@ == component_ids@);
                        } else {
                            assert(self.table_ids@[k as int].0@ != self.table_ids@[c].0@);
                        }
                    }
                    assert(self.table_ids@[k as int].1.spec_index() < self.tables@.len());
                }
                return id;
            }
            k = k + 1;
        }
        proof {
            let keys = self.spec_keys();
            assert forall|c: int| 0 <= c < keys.len() implies (#[trigger] keys[c]).0 != component_ids@ by {
                assert(keys[c].0 == self.table_ids@[c].0@);
            }
        }
        let mut builder = TableBuilder::with_capacity(0, component_ids.len());
        let mut i: usize = 0;
        while i < component_ids.len()
            invariant
                i <= component_ids@.len(),
                builder.wf(),
                components.wf(),
                component_ids@.no_duplicates(),
                forall|j: int| 0 <= j < component_ids@.len() ==> components.spec_has(#[trigger] component_ids@[j]),
                builder.spec_column_ids() == component_ids@.take(i as int),
            decreases component_ids@.len() - i,
        {
            let id = component_ids[i];
            let info = match components.get_info(id) {
                Some(info) => info,
                None => {
                    proof {
                        assert(components.spec_has(component_ids@[i as int]));
                    }
                    return TableId::new(0);
                },
            };
            proof {
                assert(info.spec_id() == id) by {
                    components.lemma_info_id(id);
                }
                if builder.spec_column_ids().contains(id) {
                    let j = choose|j: int| 0 <= j < builder.spec_column_ids().len() && builder.spec_column_ids()[j] == id;
                    assert(component_ids@[j] == id);
                }
            }
            builder.add_column(info);
            proof {
                assert(component_ids@.take(i + 1) =~= component_ids@.take(i as int).push(id));
            }
            i = i + 1;
        }
        proof {
            assert(component_ids@.take(component_ids@.len() as int) =~= component_ids@);
        }
        let table = builder.build();
        self.tables.push(table);
        let id = TableId::new(self.tables.len() - 1);
        let mut key: Vec<ComponentId> = Vec::with_capacity(component_ids.len());
        let mut j: usize = 0;
        while j < component_ids.len()
            invariant
                j <= component_ids@.len(),
                key@ == component_ids@.take(j as int),
            decreases component_ids@.len() - j,
        {
            key.push(component_ids[j]);
            proof {
                assert(component_ids@.take(j + 1) =~= component_ids@.take(j as int).push(component_ids@[j as int]));
            }
            j = j + 1;
        }
        proof {
            assert(component_ids@.take(component_ids@.len() as int) =~= component_ids@);
        }
        self.table_ids.push((key, id));
        proof {
            let n = old(self).tables@.len() as int;
            assert(id.spec_index() == n);
            assert(self.tables@.drop_last() =~= old(self).tables@);
            assert(self.spec_keys() =~= old(self).spec_keys().push((component_ids@, id)));
            assert forall|i: int| 0 <= i < self.tables@.len() implies (#[trigger] self.tables@[i]).wf() by {
                if i < n {
                    assert(self.tables@[i] == old(self).tables@[i]);
                }
            }
            let m = old(self).table_ids@.len() as int;
            assert forall|k: int| 0 <= k < self.table_ids@.len() implies {
                let e = #[trigger] self.table_ids@[k];
                &&& e.1.spec_index() < self.tables@.len()
                &&& self.tables@[e.1.spec_index() as int].spec_column_ids() == e.0@
            } by {
                if k < m {
                    let e = self.table_ids@[k];
                    assert(old(self).table_ids@[k] == e);
                    assert(self.tables@[e.1.spec_index() as int] == old(self).tables@[e.1.spec_index() as int]);
                }
            }
            assert forall|k: int, l: int| 0 <= k < l < self.table_ids@.len() implies (#[trigger] self.table_ids@[k]).0@
                != (#[trigger] self.table_ids@[l]).0@ by {
                if l < m {
                    assert(old(self).table_ids@[k].0@ != old(self).table_ids@[l].0@);
                } else {
                    assert(old(self).table_ids@[k].0@ != component_ids@);
                }
            }
            let keys = self.spec_keys();
            assert(keys[m].0 == component_ids@);
            let c = choose|c: int| 0 <= c < keys.len() && (#[trigger] keys[c]).0 == component_ids@;
            if c != m {
                assert(old(self).table_ids@[c].0@ != component_ids@);
            }
        }
        id
    }
}

} // verus!
