//! The cursor: a place in the table.

use vstd::prelude::*;
use crate::btree::{BTree, leaf_at};
use crate::datastore::Row;
use crate::error::DbError;
use crate::pager::Offset;

verus! {

/// A position in the table: a leaf page, a cell in it, and whether the
/// position lies past the last row.
#[derive(Clone, Copy, Debug)]
pub struct Cursor {
    pub offset: Offset,
    pub cell_num: usize,
    pub end_of_table: bool,
}

impl Cursor {
    /// A cursor at the first cell of the root, at the end of the table where
    /// the tree takes itself to be empty.
    pub fn start(tree: &BTree) -> (c: Self)
        requires
            tree.wf(),
        ensures
            c.offset == Offset(0),
            c.cell_num == 0,
            c.end_of_table == tree.empty_flag(),
    {
        let offset = tree.root();
        let end_of_table = tree.is_empty();
        Self { offset, cell_num: 0, end_of_table }
    }

    pub fn new(offset: Offset, cell_num: usize, end_of_table: bool) -> (c: Self)
        ensures
            c.offset == offset,
            c.cell_num == cell_num,
            c.end_of_table == end_of_table,
    {
        Self { offset, cell_num, end_of_table }
    }

    pub fn offset(&self) -> (r: &Offset)
        ensures
            *r == self.offset,
    {
        &self.offset
    }

    pub fn increment_cell_num(&mut self)
        requires
            old(self).cell_num < usize::MAX,
        ensures
            final(self).cell_num == old(self).cell_num + 1,
            final(self).offset == old(self).offset,
            final(self).end_of_table == old(self).end_of_table,
    {
        self.cell_num += 1;
    }

    pub fn cell_num(&self) -> (r: usize)
        ensures
            r == self.cell_num,
    {
        self.cell_num
    }

    /// The row on which the cursor stands; none where its leaf has no such
    /// cell. Fails where the cursor's page holds no leaf.
    pub fn value(&self, tree: &mut BTree) -> (r: Result<Option<Row>, DbError>)
        requires
            old(tree).wf(),
        ensures
            final(tree).wf(),
            final(tree).same_table(old(tree)),
            r is Ok <==> leaf_at(old(tree).store(), self.offset.0 as int),
            r matches Err(e) ==> e == old(tree).leaf_miss(self.offset.0 as int),
            r matches Ok(x) ==> {
                let v = old(tree).store()[self.offset.0 as int]->0;
                if self.cell_num < v.rows.len() {
                    x matches Some(row) && row@ == v.rows[self.cell_num as int]
                } else {
                    x is None
                }
            },
            old(tree).is_tree() && old(tree).at_cell(*self) ==> (r matches Ok(Some(row)) && 0
                <= old(tree).cursor_index(*self) < old(tree).entries().len() && row@ == old(
                tree,
            ).entries()[old(tree).cursor_index(*self)].1),
    {
        let found = tree.get(&self.offset, self.cell_num);
        proof {
            assert(*self == (Cursor {
                offset: self.offset,
                cell_num: self.cell_num,
                end_of_table: self.end_of_table,
            }));
            if old(tree).is_tree() && old(tree).at_cell(*self) {
                assert(old(tree).at_cell(
                    Cursor { offset: self.offset, cell_num: self.cell_num, end_of_table: false },
                ));
            }
        }
        found
    }

    pub fn is_at_end_of_table(&self) -> (r: bool)
        ensures
            r == self.end_of_table,
    {
        self.end_of_table
    }
}

} // verus!
