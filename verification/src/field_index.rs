//! The field index: field, then value, then positions.

use crate::value::{Value, ValueView};
use std::collections::HashMap;
use vstd::hash_map::StringHashMap;
use vstd::prelude::*;

verus! {

broadcast use vstd::std_specs::hash::group_hash_axioms;

/// Positions by value.
pub type ColumnView = Map<ValueView, Seq<usize>>;

/// The positions filed under a value.
pub open spec fn positions_of(column: ColumnView, value: ValueView) -> Seq<usize> {
    if column.contains_key(value) {
        column[value]
    } else {
        Seq::empty()
    }
}

/// The values of one field by name.
pub open spec fn column_of(index: Map<Seq<char>, ColumnView>, field: Seq<char>) -> ColumnView {
    if index.contains_key(field) {
        index[field]
    } else {
        Map::empty()
    }
}

/// Whether `position` is filed under `field` and `value`.
pub open spec fn filed(
    index: Map<Seq<char>, ColumnView>,
    field: Seq<char>,
    value: ValueView,
    position: usize,
) -> bool {
    positions_of(column_of(index, field), value).contains(position)
}

/// A column with `position` added under `value`.
pub open spec fn column_with(column: ColumnView, value: ValueView, position: usize) -> ColumnView {
    column.insert(value, positions_of(column, value).push(position))
}

/// Adding a position under a field and a value files that position there and no other.
pub proof fn lemma_filed_after_add(
    index: Map<Seq<char>, ColumnView>,
    field: Seq<char>,
    value: ValueView,
    position: usize,
)
    ensures
        forall|f: Seq<char>, v: ValueView, p: usize|
            #![trigger filed(index, f, v, p)]
            filed(
                index.insert(field, column_with(column_of(index, field), value, position)),
                f,
                v,
                p,
            ) <==> filed(index, f, v, p) || (f == field && v == value && p == position),
{
    let after = index.insert(field, column_with(column_of(index, field), value, position));
    assert forall|f: Seq<char>, v: ValueView, p: usize|
        #![trigger filed(index, f, v, p)]
        filed(after, f, v, p) <==> filed(index, f, v, p) || (f == field && v == value && p
            == position) by {
        let old_positions = positions_of(column_of(index, field), value);
        if f == field && v == value {
            let new_positions = positions_of(column_of(after, f), v);
            assert(new_positions == old_positions.push(position));
            assert(new_positions[old_positions.len() as int] == position);
            if old_positions.contains(p) {
                let k = old_positions.index_of(p);
                assert(new_positions[k] == p);
            }
            if new_positions.contains(p) && p != position {
                let k = new_positions.index_of(p);
                assert(old_positions[k] == p);
            }
        }
    }
}

/// One value and the positions that hold it.
pub struct Slot {
    pub value: Value,
    pub positions: Vec<usize>,
}

/// The values that one field takes, each with its positions.
pub struct Column {
    strings: StringHashMap<usize>,
    numbers: HashMap<u32, usize>,
    yes: Option<usize>,
    no: Option<usize>,
    slots: Vec<Slot>,
}

impl Column {
    /// Where a value's slot stands.
    closed spec fn slot_of(self, value: ValueView) -> Option<usize> {
        match value {
            ValueView::String(s) => if self.strings@.contains_key(s) {
                Some(self.strings@[s])
            } else {
                None
            },
            ValueView::Number(n) => if self.numbers@.contains_key(n) {
                Some(self.numbers@[n])
            } else {
                None
            },
            ValueView::Bool(b) => if b {
                self.yes
            } else {
                self.no
            },
        }
    }

    /// The slots, one for each value.
    pub closed spec fn slots(self) -> Seq<Slot> {
        self.slots@
    }

    /// Each value that is found leads to its own slot, and each slot is found.
    pub closed spec fn wf(self) -> bool {
        &&& forall|i: int|
            0 <= i < self.slots@.len() ==> {
                &&& self.slot_of((#[trigger] self.slots@[i]).value@) matches Some(k)
                &&& k == i
            }
        &&& forall|v: ValueView|
            (#[trigger] self.slot_of(v)) matches Some(i) ==> i < self.slots@.len()
                && self.slots@[i as int].value@ == v
    }

    /// Positions by value.
    pub closed spec fn view(self) -> ColumnView {
        Map::new(
            |v: ValueView| self.slot_of(v) is Some,
            |v: ValueView| self.slots@[self.slot_of(v)->0 as int].positions@,
        )
    }

    /// A slot stands for a value of the column, with the positions filed under it.
    pub proof fn lemma_slot(self, i: int)
        requires
            self.wf(),
            0 <= i < self.slots().len(),
        ensures
            self.view().contains_key(self.slots()[i].value@),
            self.view()[self.slots()[i].value@] == self.slots()[i].positions@,
    {
        assert(self.slot_of(self.slots@[i].value@) is Some);
    }

    /// A value of the column has a slot.
    pub proof fn lemma_value(self, value: ValueView)
        requires
            self.wf(),
            self.view().contains_key(value),
        ensures
            exists|i: int|
                0 <= i < self.slots().len() && (#[trigger] self.slots()[i]).value@ == value
                    && self.slots()[i].positions@ == self.view()[value],
    {
        let i = self.slot_of(value)->0;
        assert(self.slots()[i as int].value@ == value);
    }

    /// No values.
    pub fn new() -> (r: Column)
        ensures
            r.wf(),
            r.view() == Map::<ValueView, Seq<usize>>::empty(),
    {
        let r = Column {
            strings: StringHashMap::new(),
            numbers: HashMap::new(),
            yes: None,
            no: None,
            slots: Vec::new(),
        };
        assert(r.view() =~= Map::<ValueView, Seq<usize>>::empty());
        r
    }

    fn find(&self, value: &Value) -> (r: Option<usize>)
        ensures
            r == self.slot_of(value@),
    {
        match value {
            Value::String(s) => match self.strings.get(s.as_str()) {
                Some(i) => Some(*i),
                None => None,
            },
            Value::Number(n) => match self.numbers.get(n) {
                Some(i) => Some(*i),
                None => None,
            },
            Value::Bool(b) => if *b {
                self.yes
            } else {
                self.no
            },
        }
    }

    /// Files a position under a value.
    pub fn add(&mut self, value: &Value, position: usize)
        requires
            old(self).wf(),
        ensures
            final(self).wf(),
            final(self).view() == column_with(old(self).view(), value@, position),
    {
        let ghost before = *self;
        match self.find(value) {
            Some(i) => {
                self.slots[i].positions.push(position);
                proof {
                    assert forall|v: ValueView| self.slot_of(v) == before.slot_of(v) by {}
                    assert(self.view() =~= column_with(before.view(), value@, position));
                }
            },
            None => {
                let i = self.slots.len();
                match value {
                    Value::String(s) => self.strings.insert(s.clone(), i),
                    Value::Number(n) => {
                        self.numbers.insert(*n, i);
                    },
                    Value::Bool(b) => if *b {
                        self.yes = Some(i);
                    } else {
                        self.no = Some(i);
                    },
                }
                self.slots.push(Slot { value: value.clone(), positions: vec![position] });
                proof {
                    assert forall|v: ValueView| self.slot_of(v) == (if v == value@ {
                        Some(i)
                    } else {
                        before.slot_of(v)
                    }) by {}
                    assert(self.slots@[i as int].positions@ =~= Seq::<usize>::empty().push(position));
                    assert forall|j: int| 0 <= j < self.slots@.len() implies {
                        &&& self.slot_of((#[trigger] self.slots@[j]).value@) matches Some(k)
                        &&& k == j
                    } by {
                        if j < i {
                            assert(self.slots@[j] == before.slots@[j]);
                            assert(before.slot_of(before.slots@[j].value@) is Some);
                        }
                    }
                    assert(self.view() =~= column_with(before.view(), value@, position));
                }
            },
        }
    }

    /// Number of values.
    pub fn len(&self) -> (r: usize)
        ensures
            r == self.slots().len(),
    {
        self.slots.len()
    }

    /// The slot at `i`.
    pub fn slot(&self, i: usize) -> (r: &Slot)
        requires
            i < self.slots().len(),
        ensures
            *r == self.slots()[i as int],
    {
        &self.slots[i]
    }
}

/// The columns of all fields.
pub struct FieldIndex {
    names: StringHashMap<usize>,
    columns: Vec<Column>,
}

impl FieldIndex {
    /// Every field has a column of its own.
    pub closed spec fn wf(self) -> bool {
        &&& forall|f: Seq<char>| #[trigger]
            self.names@.contains_key(f) ==> self.names@[f] < self.columns@.len()
        &&& forall|f: Seq<char>, g: Seq<char>|
            #![trigger self.names@[f], self.names@[g]]
            self.names@.contains_key(f) && self.names@.contains_key(g) && self.names@[f]
                == self.names@[g] ==> f == g
        &&& forall|i: int| 0 <= i < self.columns@.len() ==> (#[trigger] self.columns@[i]).wf()
    }

    /// Columns by field.
    pub closed spec fn view(self) -> Map<Seq<char>, ColumnView> {
        Map::new(
            |f: Seq<char>| self.names@.contains_key(f),
            |f: Seq<char>| self.columns@[self.names@[f] as int].view(),
        )
    }

    /// No fields.
    pub fn new() -> (r: FieldIndex)
        ensures
            r.wf(),
            r.view() == Map::<Seq<char>, ColumnView>::empty(),
    {
        let r = FieldIndex { names: StringHashMap::new(), columns: Vec::new() };
        assert(r.view() =~= Map::<Seq<char>, ColumnView>::empty());
        r
    }

    /// The column of a field.
    pub fn get(&self, field: &str) -> (r: Option<&Column>)
        requires
            self.wf(),
        ensures
            r is Some <==> self.view().contains_key(field@),
            r matches Some(c) ==> c.wf() && c.view() == self.view()[field@],
    {
        match self.names.get(field) {
            Some(i) => Some(&self.columns[*i]),
            None => None,
        }
    }

    /// Files a position under a field and a value.
    pub fn add(&mut self, field: &str, value: &Value, position: usize)
        requires
            old(self).wf(),
        ensures
            final(self).wf(),
            final(self).view() == old(self).view().insert(
                field@,
                column_with(column_of(old(self).view(), field@), value@, position),
            ),
    {
        let ghost before = *self;
        let i: usize = match self.names.get(field) {
            Some(i) => *i,
            None => {
                let i = self.columns.len();
                self.names.insert(field.to_owned(), i);
                self.columns.push(Column::new());
                i
            },
        };
        self.columns[i].add(value, position);
        assert(self.view() =~= before.view().insert(
            field@,
            column_with(column_of(before.view(), field@), value@, position),
        ));
    }
}

} // verus!
