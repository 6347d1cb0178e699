//! The typed box: records of a user type, each stored under the id it carries.
//!
//! A record is turned into bytes and back by the caller's serializer; the box hands out
//! ids, stamps them on the records, and stores and reads the bytes.
use crate::basic_box::{compact_effect, BasicBox, BoxInfo, FileItem, Lookup, MAX_ENTRY_ID, MAX_STORE_POSITION};
use crate::byte_array_box::put_effect;
use crate::error::{GuiXuError, Result};
use crate::file_access::AutoIncreaseFileAccess;
use vstd::prelude::*;

verus! {

/// A record that carries its own id: zero until the box gives it one.
pub trait StoreData {
    /// The id the record carries.
    spec fn stored_id(&self) -> u64;

    /// The id the record carries.
    fn id(&self) -> (r: u64)
        ensures
            r == self.stored_id(),
    ;

    /// Stamps `id` on the record.
    fn set_id(&mut self, id: u64)
        ensures
            final(self).stored_id() == id,
    ;
}

/// A box of records of type `T`.
pub struct TypedBox<T> {
    pub basic: BasicBox,
    pub marker: core::marker::PhantomData<T>,
}

impl<T: StoreData> TypedBox<T> {
    /// The box is consistent.
    pub open spec fn wf(&self) -> bool {
        self.basic.wf()
    }

    /// The box over an opened entry box.
    pub fn open(basic: BasicBox) -> (r: Self)
        ensures
            r.basic == basic,
    {
        TypedBox { basic, marker: core::marker::PhantomData }
    }

    /// Gives `data` the id it is stored under: a fresh one when it carries zero, else the
    /// one it carries if that has been handed out. The record is stamped with it.
    pub fn assign_id(&mut self, data: &mut T) -> (r: Result<u64>)
        requires
            old(self).wf(),
        ensures
            final(self).wf(),
            final(self).basic.file_array == old(self).basic.file_array,
            final(self).basic.meta_data_file == old(self).basic.meta_data_file,
            ({
                let id = old(data).stored_id();
                let next = old(self).basic.next_id;
                &&& id == 0 && next <= MAX_ENTRY_ID ==> r == Ok::<u64, GuiXuError>(next)
                    && final(self).basic.next_id == next + 1
                &&& id == 0 && next > MAX_ENTRY_ID ==> r == Err::<u64, GuiXuError>(
                    GuiXuError::FileTooLarge(next),
                ) && final(self).basic.next_id == next
                &&& id != 0 && id < next ==> r == Ok::<u64, GuiXuError>(id) && final(self).basic.next_id
                    == next
                &&& id != 0 && id >= next ==> r == Err::<u64, GuiXuError>(
                    GuiXuError::IllegalId { id, next_id: next },
                ) && final(self).basic.next_id == next
            }),
            match r {
                Ok(id) => final(data).stored_id() == id,
                Err(_) => *final(data) == *old(data),
            },
    {
        let id = self.basic.check_id_and_get(data.id())?;
        data.set_id(id);
        Ok(id)
    }

    /// Stores the serialized bytes of the record stamped with `id` by `assign_id`.
    pub fn store(&mut self, id: u64, bytes: &[u8]) -> (r: Result<()>)
        requires
            old(self).wf(),
            1 <= id < old(self).basic.next_id,
        ensures
            final(self).wf(),
            put_effect(old(self).basic, final(self).basic, id, bytes@, match r {
                Ok(()) => Ok::<u64, GuiXuError>(id),
                Err(e) => Err::<u64, GuiXuError>(e),
            }),
    {
        self.basic.append_store(id, bytes)
    }

    /// The serialized bytes of the record under `id`.
    pub fn get_bytes(&self, id: u64) -> (r: Result<Vec<u8>>)
        requires
            self.wf(),
        ensures
            match self.basic.entry(id as int) {
                Lookup::Found(b) => r is Ok && r->Ok_0@ == b,
                Lookup::Missing => r == Err::<Vec<u8>, GuiXuError>(GuiXuError::EntryNotFound(id)),
                Lookup::Unreadable => r is Err && (r->Err_0 is Corrupt || r->Err_0 is FileTooLarge),
            },
    {
        self.basic.get_byte(id)
    }

    /// The serialized bytes of every live record, by increasing id.
    pub fn all_bytes(&self) -> (r: Result<Vec<Vec<u8>>>)
        requires
            self.wf(),
        ensures
            r is Ok,
            ({
                let expected = crate::basic_box::found_entries(
                    self.basic.file_array@,
                    1,
                    crate::basic_box::slot_count(self.basic.file_array@),
                );
                &&& r->Ok_0@.len() == expected.len()
                &&& forall|k: int| 0 <= k < expected.len() ==> #[trigger] r->Ok_0@[k]@ == expected[k]
            }),
            ({
                let ids = crate::basic_box::live_ids(
                    self.basic.file_array@,
                    1,
                    crate::basic_box::slot_count(self.basic.file_array@),
                );
                &&& r->Ok_0@.len() == ids.len()
                &&& forall|k: int| 0 <= k < ids.len() ==> #[trigger] r->Ok_0@[k]@ == crate::basic_box::lookup(
                    self.basic.file_array@,
                    ids[k],
                )->Found_0
            }),
    {
        self.basic.all_bytes()
    }

    /// Removes the record under `id`: a read of it then finds nothing.
    pub fn remove(&mut self, id: u64) -> (r: Result<()>)
        requires
            old(self).wf(),
            id <= MAX_ENTRY_ID,
        ensures
            final(self).wf(),
            final(self).basic.next_id == old(self).basic.next_id,
            match r {
                Ok(()) => {
                    &&& final(self).basic.entry(id as int) == Lookup::Missing
                    &&& forall|other: int|
                        0 <= other && other != id && (old(self).basic.file_array@[0].has_slot(other) || other > id
                            || other * 12 >= old(self).basic.file_array@[0].index_file.actual_length)
                            ==> #[trigger] final(self).basic.entry(other) == old(self).basic.entry(other)
                    &&& old(self).basic.file_array@[0].index_file.actual_length % 12 == 0 ==> forall|other: int|
                        0 <= other && other != id ==> #[trigger] final(self).basic.entry(other) == old(self).basic.entry(other)
                },
                Err(e) => e is Corrupt || e is FileTooLarge,
            },
            old(self).basic.file_array@.len() > 0 && old(self).basic.file_array@[0].index_file.write_fits(
                id * 12,
                12,
            ) ==> r is Ok,
    {
        self.basic.remove_entry(id)
    }

    /// Lets go of every file; the box holds nothing until it is opened again.
    pub fn clear(&mut self)
        requires
            old(self).wf(),
        ensures
            final(self).wf(),
            final(self).basic.file_array@.len() == 0,
            forall|id: int| #[trigger] final(self).basic.entry(id) == Lookup::Missing,
    {
        self.basic.clear();
        assert forall|id: int| #[trigger] self.basic.entry(id) == Lookup::Missing by {}
    }

    /// Compacts the box: see `BasicBox::compact`.
    pub fn compact(
        &mut self,
        output_store: AutoIncreaseFileAccess,
        output_index: AutoIncreaseFileAccess,
        working: FileItem,
    ) -> (r: Result<()>)
        requires
            old(self).wf(),
            output_store.wf(),
            output_index.wf(),
            working.wf(),
            working.store_append_position == working.store_file.actual_length,
            working.store_file.actual_length <= MAX_STORE_POSITION,
        ensures
            final(self).wf(),
            compact_effect(old(self).basic, final(self).basic, output_index, working, r),
            final(self).basic.next_id == old(self).basic.next_id,
            r is Ok && old(self).basic.file_array@.len() > 0 && working.holds_no_entries() ==> forall|id: int|
                0 <= id < old(self).basic.file_array@[0].index_file.actual_length / 12
                    ==> #[trigger] final(self).basic.entry(id) == old(self).basic.entry(id),
            r is Err ==> final(self).basic.file_array@.len() == 0,
    {
        self.basic.compact(output_store, output_index, working)
    }

    /// The sizes of the store files and of the index files.
    pub fn get_info(&self) -> (r: BoxInfo)
        requires
            self.wf(),
        ensures
            r.data_size == crate::basic_box::saturate(crate::basic_box::store_size_sum(self.basic.file_array@)),
            r.index_size == crate::basic_box::saturate(crate::basic_box::index_size_sum(self.basic.file_array@)),
            self.basic.file_array@.len() == 1 ==> r.data_size == self.basic.file_array@[0].store_file.file_size
                && r.index_size == self.basic.file_array@[0].index_file.file_size,
            self.basic.file_array@.len() == 2 ==> r.data_size == crate::basic_box::saturate(
                self.basic.file_array@[0].store_file.file_size + self.basic.file_array@[1].store_file.file_size,
            ) && r.index_size == crate::basic_box::saturate(
                self.basic.file_array@[0].index_file.file_size + self.basic.file_array@[1].index_file.file_size,
            ),
    {
        self.basic.get_info()
    }
}

} // verus!
