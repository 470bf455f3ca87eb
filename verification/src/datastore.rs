//! The row and its stored form, and the table of rows.

use vstd::utf8::{decode_utf8, encode_utf8, valid_utf8, encode_utf8_valid_utf8, encode_utf8_decode_utf8};
use vstd::prelude::*;
use vstd::string::StringSliceAdditionalSpecFns;
use crate::btree::BTree;
use crate::bytes::{copy_bytes, le_bytes, le_value, read_u32};
use crate::cursor::Cursor;
use crate::error::DbError;
use crate::grow::with_entry;
use crate::page::TABLE_MAX_PAGES;
use crate::pager::Pager;
use crate::search::{has_key, rank};
use crate::shape::{entry_keys, entry_rows};
use crate::statement::{Statement, StatementType};

verus! {

/// The bytes of a stored row: the id, then the two text fields.
pub const ROW_SIZE: usize = 291;

/// The bytes of a stored username.
pub const USERNAME_SIZE: usize = 32;

/// The bytes of a stored email.
pub const EMAIL_SIZE: usize = 255;

/// The rows that fit a page that holds rows only.
pub const ROWS_PER_PAGE: usize = 14;

/// The rows that fit `TABLE_MAX_PAGES` pages that hold rows only.
pub const TABLE_MAX_ROWS: usize = 1400;

/// What running a statement gave.
#[derive(Debug, PartialEq)]
pub enum ExecuteResult {
    InsertSuccess,
    SelectSuccess(Vec<Row>),
    TableFull,
    DuplicateKey,
}

/// One record of the table, keyed by `id`.
#[derive(Debug, PartialEq)]
pub struct Row {
    pub id: u32,
    pub username: String,
    pub email: String,
}

/// What a row holds: its id and the characters of its two texts.
pub struct RowView {
    pub id: u32,
    pub username: Seq<char>,
    pub email: Seq<char>,
}

impl View for Row {
    type V = RowView;

    open spec fn view(&self) -> RowView {
        RowView { id: self.id, username: self.username@, email: self.email@ }
    }
}

impl Clone for Row {
    fn clone(&self) -> (r: Self)
        ensures
            r@ == self@,
    {
        Row { id: self.id, username: self.username.clone(), email: self.email.clone() }
    }
}

/// The first `width` bytes of `bytes`, filled up with zero bytes.
pub open spec fn padded(bytes: Seq<u8>, width: nat) -> Seq<u8> {
    Seq::new(
        width,
        |i: int|
            if i < bytes.len() {
                bytes[i]
            } else {
                0u8
            },
    )
}

/// The stored form of a row: the id, least significant byte first, the
/// username in 32 bytes and the email in 255, each cut or zero-filled to its
/// width.
pub open spec fn row_bytes(row: RowView) -> Seq<u8> {
    le_bytes(row.id) + padded(encode_utf8(row.username), USERNAME_SIZE as nat) + padded(
        encode_utf8(row.email),
        EMAIL_SIZE as nat,
    )
}

/// The number of bytes of `bytes` before its first zero byte.
pub open spec fn text_len(bytes: Seq<u8>) -> nat
    decreases bytes.len(),
{
    if bytes.len() == 0 || bytes[0] == 0 {
        0
    } else {
        1 + text_len(bytes.drop_first())
    }
}

/// The bytes of a stored text field: those before its first zero byte.
pub open spec fn text_bytes(field: Seq<u8>) -> Seq<u8> {
    field.subrange(0, text_len(field) as int)
}

/// Whether `bytes`, of `ROW_SIZE` bytes, store a row: both text fields hold
/// UTF-8 up to their first zero byte.
pub open spec fn is_row(bytes: Seq<u8>) -> bool {
    &&& bytes.len() == ROW_SIZE
    &&& valid_utf8(text_bytes(bytes.subrange(4, 36)))
    &&& valid_utf8(text_bytes(bytes.subrange(36, ROW_SIZE as int)))
}

/// The row that `bytes` store.
pub open spec fn row_of_bytes(bytes: Seq<u8>) -> RowView {
    RowView {
        id: le_value(bytes, 0),
        username: decode_utf8(text_bytes(bytes.subrange(4, 36))),
        email: decode_utf8(text_bytes(bytes.subrange(36, ROW_SIZE as int))),
    }
}

/// Whether a row is stored in full: each text fits its field and holds no
/// zero byte.
pub open spec fn storable(row: RowView) -> bool {
    &&& encode_utf8(row.username).len() <= USERNAME_SIZE
    &&& encode_utf8(row.email).len() <= EMAIL_SIZE
    &&& forall|i: int| 0 <= i < encode_utf8(row.username).len() ==> encode_utf8(row.username)[i] != 0
    &&& forall|i: int| 0 <= i < encode_utf8(row.email).len() ==> encode_utf8(row.email)[i] != 0
}

/// The text length is the index of the first zero byte, or the length where
/// there is none.
pub proof fn lemma_text_len_bounds(bytes: Seq<u8>)
    ensures
        text_len(bytes) <= bytes.len(),
        forall|i: int| 0 <= i < text_len(bytes) ==> bytes[i] != 0,
        text_len(bytes) < bytes.len() ==> bytes[text_len(bytes) as int] == 0,
    decreases bytes.len(),
{
    if bytes.len() == 0 || bytes[0] == 0 {
    } else {
        let rest = bytes.drop_first();
        lemma_text_len_bounds(rest);
        assert forall|i: int| 0 <= i < text_len(bytes) implies bytes[i] != 0 by {
            if i > 0 {
                assert(rest[i - 1] == bytes[i]);
            }
        }
        if text_len(bytes) < bytes.len() {
            assert(rest[text_len(rest) as int] == bytes[text_len(bytes) as int]);
        }
    }
}

/// The index of the first zero byte, or the length where there is none, is
/// the text length.
pub proof fn lemma_text_len_unique(bytes: Seq<u8>, n: int)
    requires
        0 <= n <= bytes.len(),
        forall|i: int| 0 <= i < n ==> bytes[i] != 0,
        n < bytes.len() ==> bytes[n] == 0,
    ensures
        text_len(bytes) == n,
{
    lemma_text_len_bounds(bytes);
    let t = text_len(bytes) as int;
    if t < n {
        assert(bytes[t] == 0);
    } else if n < t {
        assert(bytes[n] != 0);
    }
}

/// A text without zero bytes that fits its field is read back from the
/// zero-filled field.
pub proof fn lemma_text_of_padded(text: Seq<u8>, width: nat)
    requires
        text.len() <= width,
        forall|i: int| 0 <= i < text.len() ==> text[i] != 0,
    ensures
        text_bytes(padded(text, width)) == text,
{
    let field = padded(text, width);
    lemma_text_len_unique(field, text.len() as int);
    assert(text_bytes(field) =~= text);
}

/// A row that is stored in full is read back from its stored form.
pub proof fn lemma_row_round_trip(row: RowView)
    requires
        storable(row),
    ensures
        row_bytes(row).len() == ROW_SIZE,
        is_row(row_bytes(row)),
        row_of_bytes(row_bytes(row)) == row,
{
    let bytes = row_bytes(row);
    let name = encode_utf8(row.username);
    let mail = encode_utf8(row.email);
    assert(bytes.subrange(4, 36) =~= padded(name, USERNAME_SIZE as nat));
    assert(bytes.subrange(36, ROW_SIZE as int) =~= padded(mail, EMAIL_SIZE as nat));
    lemma_text_of_padded(name, USERNAME_SIZE as nat);
    lemma_text_of_padded(mail, EMAIL_SIZE as nat);
    encode_utf8_valid_utf8(row.username);
    encode_utf8_valid_utf8(row.email);
    encode_utf8_decode_utf8(row.username);
    encode_utf8_decode_utf8(row.email);
    crate::bytes::lemma_le_value_of_splice(bytes, 0, row.id);
    assert(crate::bytes::splice(bytes, 0, le_bytes(row.id)) =~= bytes);
}

/// `String::from_utf8`: the text whose UTF-8 encoding is `bytes`, and `None`
/// exactly where `bytes` are not valid UTF-8.
#[verifier::external_body]
fn text_of_utf8(bytes: Vec<u8>) -> (r: Option<String>)
    ensures
        r is Some <==> valid_utf8(bytes@),
        r matches Some(s) ==> encode_utf8(s@) == bytes@,
{
    match String::from_utf8(bytes) {
        Ok(s) => Some(s),
        Err(_) => None,
    }
}

/// Appends the first `width` bytes of `text` to `out`, filled up with zero
/// bytes.
fn push_padded(out: &mut Vec<u8>, text: &[u8], width: usize)
    ensures
        final(out)@ == old(out)@ + padded(text@, width as nat),
{
    let mut i: usize = 0;
    while i < width
        invariant
            i <= width,
            out@ == old(out)@ + padded(text@, width as nat).subrange(0, i as int),
        decreases width - i,
    {
        let b: u8 = if i < text.len() {
            text[i]
        } else {
            0
        };
        out.push(b);
        i += 1;
        assert(out@ =~= old(out)@ + padded(text@, width as nat).subrange(0, i as int));
    }
    assert(padded(text@, width as nat).subrange(0, i as int) =~= padded(text@, width as nat));
}

/// The text stored in the `width` bytes of `data` from `at`: the bytes
/// before the first zero byte, decoded; `None` where they are not UTF-8.
fn read_text(data: &[u8], at: usize, width: usize) -> (r: Option<String>)
    requires
        at + width <= data.len(),
    ensures
        r is Some <==> valid_utf8(text_bytes(data@.subrange(at as int, at + width))),
        r matches Some(s) ==> s@ == decode_utf8(
            text_bytes(data@.subrange(at as int, at + width)),
        ),
{
    let ghost field = data@.subrange(at as int, at + width);
    let mut n: usize = 0;
    while n < width && data[at + n] != 0
        invariant
            n <= width,
            at + width <= data.len(),
            field == data@.subrange(at as int, at + width),
            forall|i: int| 0 <= i < n ==> field[i] != 0,
        decreases width - n,
    {
        n += 1;
    }
    proof {
        lemma_text_len_unique(field, n as int);
    }
    let text = copy_bytes(data, at, n);
    assert(text@ =~= text_bytes(field));
    match text_of_utf8(text) {
        Some(s) => {
            proof {
                encode_utf8_decode_utf8(s@);
            }
            Some(s)
        },
        None => None,
    }
}

/// Whether `text` has `width` bytes at most and no zero byte.
fn text_fits(text: &[u8], width: usize) -> (r: bool)
    ensures
        r == (text@.len() <= width && forall|i: int| 0 <= i < text@.len() ==> text@[i] != 0),
{
    if text.len() > width {
        return false;
    }
    let mut i: usize = 0;
    while i < text.len()
        invariant
            i <= text.len(),
            forall|j: int| 0 <= j < i ==> text@[j] != 0,
        decreases text.len() - i,
    {
        if text[i] == 0 {
            return false;
        }
        i += 1;
    }
    true
}

impl Row {
    /// Whether the row is stored in full: each text fits its field and
    /// holds no zero byte.
    pub fn is_storable(&self) -> (r: bool)
        ensures
            r == storable(self@),
    {
        text_fits(self.username.as_str().as_bytes(), USERNAME_SIZE) && text_fits(
            self.email.as_str().as_bytes(),
            EMAIL_SIZE,
        )
    }

    /// The stored form of the row, `ROW_SIZE` bytes.
    pub fn serialize(&self) -> (ser: Vec<u8>)
        ensures
            ser@ == row_bytes(self@),
            ser.len() == ROW_SIZE,
    {
        let mut ser: Vec<u8> = Vec::new();
        ser.push((self.id % 256) as u8);
        ser.push(((self.id / 256) % 256) as u8);
        ser.push(((self.id / 65536) % 256) as u8);
        ser.push((self.id / 16777216) as u8);
        assert(ser@ =~= le_bytes(self.id));
        push_padded(&mut ser, self.username.as_str().as_bytes(), USERNAME_SIZE);
        push_padded(&mut ser, self.email.as_str().as_bytes(), EMAIL_SIZE);
        ser
    }

    /// The row stored in the `ROW_SIZE` bytes of `data` from `at`; `None`
    /// where a text field does not hold UTF-8.
    pub fn read(data: &[u8], at: usize) -> (r: Option<Row>)
        requires
            at + ROW_SIZE <= data.len(),
        ensures
            r is Some <==> is_row(data@.subrange(at as int, at + ROW_SIZE)),
            r matches Some(row) ==> row@ == row_of_bytes(data@.subrange(at as int, at + ROW_SIZE)),
    {
        let ghost bytes = data@.subrange(at as int, at + ROW_SIZE);
        assert(bytes.subrange(4, 36) =~= data@.subrange(at + 4, at + 4 + USERNAME_SIZE));
        assert(bytes.subrange(36, ROW_SIZE as int) =~= data@.subrange(
            at + 36,
            at + 36 + EMAIL_SIZE,
        ));
        let id = read_u32(data, at);
        proof {
            crate::bytes::lemma_le_value_frame(data@.subrange(at as int, at + 4), bytes, 0);
            assert(le_value(bytes, 0) == le_value(data@, at as int));
        }
        let username = match read_text(data, at + 4, USERNAME_SIZE) {
            Some(s) => s,
            None => { return None; },
        };
        let email = match read_text(data, at + 36, EMAIL_SIZE) {
            Some(s) => s,
            None => { return None; },
        };
        Some(Row { id, username, email })
    }

    /// The row stored in `data`.
    pub fn deserialize(data: &[u8]) -> (row: Self)
        requires
            is_row(data@),
        ensures
            row@ == row_of_bytes(data@),
    {
        assert(data@.subrange(0, ROW_SIZE as int) =~= data@);
        match Row::read(data, 0) {
            Some(row) => row,
            None => Row { id: 0, username: String::new(), email: String::new() },
        }
    }
}

/// The one table of rows, kept in a B+-tree under each row's id.
pub struct Table {
    root_page_num: usize,
    btree: BTree,
}

impl Table {
    /// The tree that holds the table.
    pub closed spec fn tree(&self) -> BTree {
        self.btree
    }

    /// The table's consistency: that of its tree.
    pub open spec fn wf(&self) -> bool {
        self.tree().wf()
    }

    /// Whether the pages hold a B+-tree in which each row stands under its
    /// own id.
    pub open spec fn is_table(&self) -> bool {
        &&& self.tree().is_tree()
        &&& forall|i: int|
            0 <= i < self.tree().entries().len() ==> (#[trigger] self.tree().entries()[i]).0
                == self.tree().entries()[i].1.id
    }

    /// The rows of the table, in order of their ids.
    pub open spec fn rows(&self) -> Seq<RowView> {
        entry_rows(self.tree().entries())
    }

    /// The ids of the rows, in ascending order.
    pub open spec fn ids(&self) -> Seq<usize> {
        entry_keys(self.tree().entries())
    }

    /// The rows of a table stand in strictly ascending order of their ids:
    /// a select gives each row once, in order.
    pub proof fn lemma_ids_ascend(&self)
        requires
            self.is_table(),
        ensures
            crate::search::strictly_ascending(self.ids()),
            forall|i: int| 0 <= i < self.rows().len() ==> (#[trigger] self.rows()[i]).id
                == self.ids()[i],
    {
        self.tree().lemma_keys_ascend();
    }

    /// A table whose rows are stored in full holds the same rows after
    /// `close` and a new start on the image.
    pub proof fn lemma_reopen(before: &Table, after: &Table)
        requires
            before.wf(),
            before.is_table(),
            before.tree().rows_storable(),
            after.tree().store().len() == before.tree().store().len(),
            after.tree().pager().free().len() == 0,
            forall|i: int|
                0 <= i < before.tree().store().len() ==> #[trigger] after.tree().store()[i]
                    == crate::pager::stored_node(before.tree().pager().flushed_image(), i),
            after.tree().is_tree() == crate::shape::tree_in(
                after.tree().store(),
                after.tree().pager().free(),
            ),
        ensures
            after.is_table(),
            after.rows() == before.rows(),
    {
        BTree::lemma_reopen(&before.tree(), &after.tree());
    }

    /// The table stored in `image`, which may take up `TABLE_MAX_PAGES`
    /// pages; an empty table where `image` is empty.
    pub fn open(image: Vec<u8>) -> (r: Result<Self, DbError>)
        ensures
            r is Ok <==> openable(image@, TABLE_MAX_PAGES as nat),
            r matches Ok(t) ==> t.wf() && t.tree().pager().limit() == TABLE_MAX_PAGES && opened(
                &t,
                image@,
            ),
            r matches Err(e) ==> e == open_error(image@, TABLE_MAX_PAGES as nat),
    {
        Table::open_with_limit(image, TABLE_MAX_PAGES)
    }

    /// As [`Table::open`], for a table that may take up `max_pages` pages.
    pub fn open_with_limit(image: Vec<u8>, max_pages: usize) -> (r: Result<Self, DbError>)
        ensures
            r is Ok <==> openable(image@, max_pages as nat),
            r matches Ok(t) ==> t.wf() && t.tree().pager().limit() == if max_pages
                <= crate::pager::page_ceiling() {
                max_pages as nat
            } else {
                crate::pager::page_ceiling()
            } && opened(&t, image@),
            r matches Err(e) ==> e == open_error(image@, max_pages as nat),
    {
        let pager = match Pager::open_with_limit(image, max_pages) {
            Ok(pager) => pager,
            Err(e) => {
                return Err(e);
            },
        };
        proof {
            pager.lemma_wf();
        }
        let btree = match BTree::new(pager) {
            Ok(btree) => btree,
            Err(e) => {
                return Err(e);
            },
        };
        Ok(Table { root_page_num: 0, btree })
    }

    /// Runs a statement: an insert of its row, or a select of all rows.
    pub fn execute_statement(&mut self, stmt: Statement) -> (r: Result<ExecuteResult, DbError>)
        requires
            old(self).wf(),
            stmt.statement_type is Insert ==> stmt.row_to_insert is Some,
        ensures
            final(self).wf(),
            stmt.statement_type is Select ==> selected(old(self), final(self), r),
            old(self).is_table() ==> final(self).is_table() && match stmt.statement_type {
                StatementType::Insert => insert_result(
                    old(self),
                    final(self),
                    stmt.row_to_insert->0@,
                    r,
                ),
                StatementType::Select => select_result(old(self), final(self), r),
            },
    {
        match stmt.statement_type {
            StatementType::Insert => match stmt.row_to_insert {
                Some(row) => self.execute_insert(row),
                None => Err(DbError::InvariantViolation),
            },
            StatementType::Select => self.execute_select(),
        }
    }

    /// Writes the table into its image.
    pub fn close(&mut self)
        requires
            old(self).wf(),
        ensures
            final(self).wf(),
            final(self).tree().pager().image() == old(self).tree().pager().flushed_image(),
            final(self).tree().pager().image().len() == old(self).tree().pager().page_count()
                * crate::page::PAGE_SIZE,
            final(self).tree().pager().page_count() == old(self).tree().pager().page_count(),
            final(self).tree().pager().cached_views() == old(self).tree().pager().cached_views(),
            old(self).is_table() ==> final(self).is_table() && final(self).rows() == old(
                self,
            ).rows(),
    {
        self.btree.close()
    }

    /// The bytes of the table's image as last opened or closed.
    pub fn image_bytes(&self) -> (r: &Vec<u8>)
        ensures
            r@ == self.tree().pager().image(),
    {
        self.btree.image_bytes()
    }

    /// The page of the root, which is page 0.
    pub fn root_page_num(&self) -> (r: usize)
        requires
            self.wf(),
        ensures
            r == self.spec_root_page_num(),
    {
        self.root_page_num
    }

    /// The page of the root as the table records it.
    pub closed spec fn spec_root_page_num(&self) -> usize {
        self.root_page_num
    }

    /// Where the row of id `key` stands, as [`BTree::find`] says.
    pub fn find(&mut self, key: u32) -> (r: Result<Result<Cursor, Cursor>, DbError>)
        requires
            old(self).wf(),
        ensures
            final(self).wf(),
            final(self).tree().same_table(&old(self).tree()),
            final(self).spec_root_page_num() == old(self).spec_root_page_num(),
            r == old(self).tree().found(key as usize),
            old(self).is_table() ==> match r {
                Ok(Ok(c)) => has_key(old(self).ids(), key as usize) && old(self).tree().at_cell(c)
                    && old(self).tree().cursor_index(c) == rank(old(self).ids(), key as usize),
                Ok(Err(c)) => !has_key(old(self).ids(), key as usize) && old(
                    self,
                ).tree().cursor_index(c) == rank(old(self).ids(), key as usize),
                Err(_) => false,
            },
    {
        self.btree.find(key)
    }

    /// The page of the root, which is page 0.
    pub fn get_root_page_num(&self) -> (r: usize)
        requires
            self.wf(),
        ensures
            r == self.spec_root_page_num(),
    {
        self.root_page_num
    }

    fn execute_insert(&mut self, row: Row) -> (r: Result<ExecuteResult, DbError>)
        requires
            old(self).wf(),
        ensures
            final(self).wf(),
            old(self).is_table() ==> final(self).is_table() && insert_result(
                old(self),
                final(self),
                row@,
                r,
            ),
    {
        let ghost before = self.tree().entries();
        let ghost view = row@;
        match self.find(row.id) {
            Ok(Ok(_duplicate_location)) => Ok(ExecuteResult::DuplicateKey),
            Ok(Err(_)) => {
                let id = row.id;
                match self.btree.insert(id, row) {
                    Ok(true) => {
                        proof {
                            if old(self).is_table() {
                                let k = id as usize;
                                let at = rank(entry_keys(before), k) as int;
                                crate::btree::lemma_rank_splits_len(entry_keys(before), k);
                                let after = self.tree().entries();
                                assert forall|i: int| 0 <= i < after.len() implies (
                                #[trigger] after[i]).0 == after[i].1.id by {
                                    if i < at {
                                        assert(after[i] == before[i]);
                                    } else if i > at {
                                        assert(after[i] == before[i - 1]);
                                    }
                                }
                            }
                        }
                        Ok(ExecuteResult::InsertSuccess)
                    },
                    Ok(false) => Ok(ExecuteResult::DuplicateKey),
                    Err(DbError::TableFull) => Ok(ExecuteResult::TableFull),
                    Err(e) => Err(e),
                }
            },
            Err(e) => Err(e),
        }
    }

    fn execute_select(&mut self) -> (r: Result<ExecuteResult, DbError>)
        requires
            old(self).wf(),
        ensures
            final(self).wf(),
            selected(old(self), final(self), r),
            old(self).is_table() ==> final(self).is_table() && select_result(
                old(self),
                final(self),
                r,
            ),
    {
        match self.btree.select() {
            Ok(rows) => Ok(ExecuteResult::SelectSuccess(rows)),
            Err(e) => Err(e),
        }
    }
}

/// Whether a table can be opened on an image: the image is a whole number
/// of pages, no more than offsets can name, and either empty, with a page
/// allowed for the root, or of a first page that stores a node.
pub open spec fn openable(image: Seq<u8>, max_pages: nat) -> bool {
    &&& image.len() % (crate::page::PAGE_SIZE as nat) == 0
    &&& image.len() / (crate::page::PAGE_SIZE as nat) <= crate::pager::page_ceiling()
    &&& if image.len() == 0 {
        max_pages >= 1
    } else {
        crate::pager::stored_node(image, 0) is Some
    }
}

/// The error of opening a table on an image on which none can be opened.
pub open spec fn open_error(image: Seq<u8>, max_pages: nat) -> DbError {
    if image.len() == 0 {
        DbError::TableFull
    } else {
        DbError::CorruptFile
    }
}

/// What a table opened on an image holds: over an empty image an empty
/// table of one leaf; else at each offset the node that the image stores
/// there, which make a table if they make a tree.
pub open spec fn opened(t: &Table, image: Seq<u8>) -> bool {
    &&& t.tree().pager().free().len() == 0
    &&& if image.len() == 0 {
        &&& t.tree().pager().page_count() == 1
        &&& t.tree().pager().image() == image
        &&& t.is_table()
        &&& t.rows().len() == 0
        &&& t.tree().height() == 1
    } else {
        &&& t.tree().pager().image() == image
        &&& t.tree().store().len() == image.len() / (crate::page::PAGE_SIZE as nat)
        &&& t.tree().pager().page_count() == t.tree().store().len()
        &&& forall|i: int|
            0 <= i < t.tree().store().len() ==> #[trigger] t.tree().store()[i]
                == crate::pager::stored_node(image, i)
        &&& t.tree().is_tree() == crate::shape::tree_in(
            t.tree().store(),
            t.tree().pager().free(),
        )
    }
}

/// What an insert of `row` into a table gives: `DuplicateKey`, the table
/// unchanged, where a row of that id is there; `TableFull`, the table
/// unchanged, where the pages that the insert would allot are not left;
/// else `InsertSuccess`, the table holding the row at its place.
pub open spec fn insert_result(
    before: &Table,
    after: &Table,
    row: RowView,
    r: Result<ExecuteResult, DbError>,
) -> bool {
    let key = row.id as usize;
    match r {
        Ok(ExecuteResult::DuplicateKey) => {
            &&& has_key(before.ids(), key)
            &&& after.tree().same_table(&before.tree())
        },
        Ok(ExecuteResult::TableFull) => {
            &&& !has_key(before.ids(), key)
            &&& before.tree().pages_needed_for(key) > before.tree().pager().room()
            &&& after.tree().same_table(&before.tree())
        },
        Ok(ExecuteResult::InsertSuccess) => {
            &&& !has_key(before.ids(), key)
            &&& before.tree().pages_needed_for(key) <= before.tree().pager().room()
            &&& after.tree().entries() == with_entry(before.tree().entries(), key, row)
        },
        _ => false,
    }
}

/// What a select gives over any pages: the rows that a scan meets, or the
/// error in which the scan ends; the table is unchanged.
pub open spec fn selected(before: &Table, after: &Table, r: Result<ExecuteResult, DbError>) -> bool {
    &&& after.tree().same_table(&before.tree())
    &&& match before.tree().scanned() {
        Ok(views) => r matches Ok(ExecuteResult::SelectSuccess(rows)) && crate::btree::row_views(
            rows@,
        ) == views,
        Err(e) => r == Err::<ExecuteResult, DbError>(e),
    }
}

/// What a select gives: all rows of the table in order of their ids, the
/// table unchanged.
pub open spec fn select_result(
    before: &Table,
    after: &Table,
    r: Result<ExecuteResult, DbError>,
) -> bool {
    &&& after.tree().same_table(&before.tree())
    &&& r matches Ok(ExecuteResult::SelectSuccess(rows))
    &&& crate::btree::row_views(rows@) == before.rows()
}


} // verus!
