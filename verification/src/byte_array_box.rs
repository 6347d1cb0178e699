//! The byte array box: raw byte entries under numeric ids.
use crate::basic_box::{compact_effect, append_fits, lookup, BasicBox, BoxInfo, FileItem, Lookup, MAX_ENTRY_ID, MAX_STORE_POSITION};
use crate::error::{GuiXuError, Result};
use crate::file_access::AutoIncreaseFileAccess;
use vstd::prelude::*;

verus! {

/// What a put of `data` under `id` into `old` leaves in `new`, returning `r`.
///
/// An id of zero asks for a fresh id; any other id must have been handed out. A success
/// gives the id the bytes went under, and a later read of that id gives them back when
/// they are not empty (an empty entry lets an older generation answer). Ids past the
/// working index's items in use, or with an item there, keep what they held unless it
/// could not be read, and so does every other id when that index ends on an item
/// boundary. The bytes are appended to the working store, and the working index grows to
/// take the id's item.
pub open spec fn put_effect(old: BasicBox, new: BasicBox, id: u64, data: Seq<u8>, r: Result<u64>) -> bool {
    &&& id != 0 && id >= old.next_id ==> r == Err::<u64, GuiXuError>(
        GuiXuError::IllegalId { id, next_id: old.next_id },
    ) && new == old
    &&& id == 0 && old.next_id > MAX_ENTRY_ID ==> r == Err::<u64, GuiXuError>(
        GuiXuError::FileTooLarge(old.next_id),
    ) && new == old
    &&& match r {
        Ok(i) => {
            &&& i == if id == 0 { old.next_id } else { id }
            &&& new.next_id == if id == 0 { old.next_id + 1 } else { old.next_id as int }
            &&& new.entry(i as int) == if data.len() > 0 {
                Lookup::Found(data)
            } else {
                lookup(old.file_array@.drop_first(), i as int)
            }
            &&& forall|other: int|
                0 <= other && other != i && (old.file_array@[0].has_slot(other) || other > i || other * 12 >= old.file_array@[0].index_file.actual_length)
                    && !(old.entry(other) is Unreadable) ==> #[trigger] new.entry(other) == old.entry(other)
            &&& old.file_array@[0].index_file.actual_length % 12 == 0 ==> forall|other: int|
                0 <= other && other != i && !(old.entry(other) is Unreadable) ==> #[trigger] new.entry(other)
                    == old.entry(other)
            &&& new.file_array@.len() == old.file_array@.len()
            &&& new.file_array@.drop_first() == old.file_array@.drop_first()
            &&& new.file_array@[0].store_append_position == old.file_array@[0].store_append_position + data.len()
            &&& new.file_array@[0].index_file.actual_length == if i * 12 + 12 > old.file_array@[0].index_file.actual_length {
                i * 12 + 12
            } else {
                old.file_array@[0].index_file.actual_length as int
            }
        },
        Err(e) => e is IllegalId || e is Corrupt || e is FileTooLarge,
    }
    &&& (id == 0 ==> old.next_id <= MAX_ENTRY_ID) && (id != 0 ==> id < old.next_id) && append_fits(
        old,
        if id == 0 { old.next_id } else { id },
        data.len(),
    ) ==> r is Ok
}

/// Bytes put under an id, when they are not empty, are what a read of the id it went under
/// gives back.
pub proof fn lemma_put_then_get_bytes(old: BasicBox, new: BasicBox, id: u64, data: Seq<u8>, stored: u64)
    requires
        put_effect(old, new, id, data, Ok::<u64, GuiXuError>(stored)),
        data.len() > 0,
    ensures
        new.entry(stored as int) == Lookup::Found(data),
        id != 0 ==> stored == id,
        id == 0 ==> stored == old.next_id && new.next_id == old.next_id + 1,
{
}

/// A box of raw byte entries.
pub struct ByteArrayBox {
    pub basic: BasicBox,
}

impl ByteArrayBox {
    /// The box is consistent.
    pub open spec fn wf(&self) -> bool {
        self.basic.wf()
    }

    /// The box over an opened entry box.
    pub fn open(basic: BasicBox) -> (r: Self)
        ensures
            r.basic == basic,
    {
        ByteArrayBox { basic }
    }

    /// Stores `data` under `id`, or under a fresh id when `id` is zero, and gives the id.
    pub fn put(&mut self, id: u64, data: Vec<u8>) -> (r: Result<u64>)
        requires
            old(self).wf(),
        ensures
            final(self).wf(),
            put_effect(old(self).basic, final(self).basic, id, data@, r),
    {
        let id = self.basic.check_id_and_get(id)?;
        self.basic.append_store(id, data.as_slice())?;
        Ok(id)
    }

    /// The bytes stored under `id`.
    pub fn get(&self, id: u64) -> (r: Result<Vec<u8>>)
        requires
            self.wf(),
        ensures
            match self.basic.entry(id as int) {
                Lookup::Found(b) => r is Ok && r->Ok_0@ == b,
                Lookup::Missing => r == Err::<Vec<u8>, GuiXuError>(GuiXuError::EntryNotFound(id)),
                Lookup::Unreadable => r is Err && (r->Err_0 is Corrupt || r->Err_0 is FileTooLarge),
            },
    {
        self.basic.get_byte(id)
    }

    /// Every live entry, by increasing id, from id 1 below the slot count of the generations.
    pub fn all(&self) -> (r: Result<Vec<Vec<u8>>>)
        requires
            self.wf(),
        ensures
            r is Ok,
            ({
                let expected = crate::basic_box::found_entries(
                    self.basic.file_array@,
                    1,
                    crate::basic_box::slot_count(self.basic.file_array@),
                );
                &&& r->Ok_0@.len() == expected.len()
                &&& forall|k: int| 0 <= k < expected.len() ==> #[trigger] r->Ok_0@[k]@ == expected[k]
            }),
            ({
                let ids = crate::basic_box::live_ids(
                    self.basic.file_array@,
                    1,
                    crate::basic_box::slot_count(self.basic.file_array@),
                );
                &&& r->Ok_0@.len() == ids.len()
                &&& forall|k: int| 0 <= k < ids.len() ==> #[trigger] r->Ok_0@[k]@ == crate::basic_box::lookup(
                    self.basic.file_array@,
                    ids[k],
                )->Found_0
            }),
    {
        self.basic.all_bytes()
    }

    /// Removes the entry under `id`: a read of it then finds nothing.
    pub fn remove(&mut self, id: u64) -> (r: Result<()>)
        requires
            old(self).wf(),
            id <= MAX_ENTRY_ID,
        ensures
            final(self).wf(),
            final(self).basic.next_id == old(self).basic.next_id,
            old(self).basic.file_array@.len() == 0 ==> r matches Err(GuiXuError::Corrupt(_)),
            match r {
                Ok(()) => {
                    &&& final(self).basic.entry(id as int) == Lookup::Missing
                    &&& forall|other: int|
                        0 <= other && other != id && (old(self).basic.file_array@[0].has_slot(other) || other > id
                            || other * 12 >= old(self).basic.file_array@[0].index_file.actual_length)
                            ==> #[trigger] final(self).basic.entry(other) == old(self).basic.entry(other)
                    &&& old(self).basic.file_array@[0].index_file.actual_length % 12 == 0 ==> forall|other: int|
                        0 <= other && other != id ==> #[trigger] final(self).basic.entry(other) == old(self).basic.entry(other)
                    &&& final(self).basic.file_array@.len() == old(self).basic.file_array@.len()
                    &&& final(self).basic.file_array@[0].index_file.actual_length == if id * 12 + 12
                        > old(self).basic.file_array@[0].index_file.actual_length {
                        id * 12 + 12
                    } else {
                        old(self).basic.file_array@[0].index_file.actual_length as int
                    }
                },
                Err(e) => e is Corrupt || e is FileTooLarge,
            },
            old(self).basic.file_array@.len() > 0 && old(self).basic.file_array@[0].index_file.write_fits(
                id * 12,
                12,
            ) ==> r is Ok,
    {
        self.basic.remove_entry(id)
    }

    /// Lets go of every file; the box holds nothing until it is opened again.
    pub fn clear(&mut self)
        requires
            old(self).wf(),
        ensures
            final(self).wf(),
            final(self).basic.file_array@.len() == 0,
            final(self).basic.meta_data_file is None,
            forall|id: int| #[trigger] final(self).basic.entry(id) == Lookup::Missing,
    {
        self.basic.clear();
        assert forall|id: int| #[trigger] self.basic.entry(id) == Lookup::Missing by {}
    }

    /// Compacts the box: see `BasicBox::compact`. With a fresh working generation, every
    /// id below the working index's items in use keeps what it held.
    pub fn compact(
        &mut self,
        output_store: AutoIncreaseFileAccess,
        output_index: AutoIncreaseFileAccess,
        working: FileItem,
    ) -> (r: Result<()>)
        requires
            old(self).wf(),
            output_store.wf(),
            output_index.wf(),
            working.wf(),
            working.store_append_position == working.store_file.actual_length,
            working.store_file.actual_length <= MAX_STORE_POSITION,
        ensures
            final(self).wf(),
            compact_effect(old(self).basic, final(self).basic, output_index, working, r),
            final(self).basic.next_id == old(self).basic.next_id,
            old(self).basic.file_array@.len() == 0 ==> r is Ok && *final(self) == *old(self),
            r is Ok && old(self).basic.file_array@.len() > 0 && working.holds_no_entries() ==> forall|id: int|
                0 <= id < old(self).basic.file_array@[0].index_file.actual_length / 12
                    ==> #[trigger] final(self).basic.entry(id) == old(self).basic.entry(id),
            r is Err ==> final(self).basic.file_array@.len() == 0,
    {
        self.basic.compact(output_store, output_index, working)
    }

    /// The sizes of the store files and of the index files.
    pub fn get_info(&self) -> (r: BoxInfo)
        requires
            self.wf(),
        ensures
            r.data_size == crate::basic_box::saturate(crate::basic_box::store_size_sum(self.basic.file_array@)),
            r.index_size == crate::basic_box::saturate(crate::basic_box::index_size_sum(self.basic.file_array@)),
            self.basic.file_array@.len() == 1 ==> r.data_size == self.basic.file_array@[0].store_file.file_size
                && r.index_size == self.basic.file_array@[0].index_file.file_size,
            self.basic.file_array@.len() == 2 ==> r.data_size == crate::basic_box::saturate(
                self.basic.file_array@[0].store_file.file_size + self.basic.file_array@[1].store_file.file_size,
            ) && r.index_size == crate::basic_box::saturate(
                self.basic.file_array@[0].index_file.file_size + self.basic.file_array@[1].index_file.file_size,
            ),
    {
        self.basic.get_info()
    }
}

} // verus!
