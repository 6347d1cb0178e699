//! The numbered entry box that all other boxes are built on.
//!
//! A box keeps one or two generations of files, newest first. Each generation has an
//! index file of twelve-byte items, item `id` at `12 * id`, holding the big-endian store
//! position and the signed length of entry `id`, and a store file that entries are
//! appended to. A length of zero means "look in an older generation"; a negative length
//! marks a removed entry. A small metadata file records the number of the working
//! generation and how many generations there are.
use crate::byte_ops::{
    i32_to_bytes, lemma_i32_bytes_roundtrip, lemma_u64_bytes_roundtrip, spec_bytes_to_i32, spec_bytes_to_u64,
    spec_i32_to_bytes, spec_u64_to_bytes, u64_to_bytes,
};
use crate::error::{GuiXuError, Result};
use crate::file_access::{
    lemma_written_gap, lemma_grown_fits, AutoIncreaseFileAccess, FixSizeFileAccess, lemma_written_read, MAX_INCREASE_SIZE,
};
use vstd::prelude::*;

verus! {

/// The size of one index item.
pub const INDEX_ITEM_LENGTH: u64 = 12;

/// The length that marks a removed entry.
pub const DELETE_FLAG: i32 = -2147483647;

/// The largest id whose index item lies within the reach of a file position.
pub const MAX_ENTRY_ID: u64 = 1537228672809129299;

/// The largest store position that an entry may be appended at.
pub const MAX_STORE_POSITION: u64 = 4611686018427387904;

/// The sizes of the files of a box.
#[derive(Debug, Clone, Copy, PartialEq, Eq)]
pub struct BoxInfo {
    pub data_size: u64,
    pub index_size: u64,
}

/// One generation of files: the index, the store, and where the next entry goes in the store.
pub struct FileItem {
    pub index_file: AutoIncreaseFileAccess,
    pub store_file: AutoIncreaseFileAccess,
    pub store_append_position: u64,
}

/// What a box holds under an id.
pub enum Lookup {
    /// The bytes of a live entry.
    Found(Seq<u8>),
    /// No live entry.
    Missing,
    /// An index item points past the bytes in use of its store.
    Unreadable,
}

/// The twelve bytes of an index item.
pub open spec fn index_record(position: u64, length: i32) -> Seq<u8> {
    spec_u64_to_bytes(position) + spec_i32_to_bytes(length)
}

impl FileItem {
    /// Both files are consistent images.
    pub open spec fn wf(&self) -> bool {
        self.index_file.wf() && self.store_file.wf()
    }

    /// Whether the index item of `id` lies within the bytes in use of the index.
    pub open spec fn has_slot(&self, id: int) -> bool {
        id * 12 + 12 <= self.index_file.actual_length
    }

    /// The store position recorded for `id`.
    pub open spec fn slot_position(&self, id: int) -> u64 {
        spec_bytes_to_u64(self.index_file.bytes().subrange(id * 12, id * 12 + 8))
    }

    /// The length recorded for `id`.
    pub open spec fn slot_length(&self, id: int) -> i32 {
        spec_bytes_to_i32(self.index_file.bytes().subrange(id * 12 + 8, id * 12 + 12))
    }

    /// This generation records nothing for any id: a lookup passes it by.
    pub open spec fn holds_no_entries(&self) -> bool {
        forall|id: int| 0 <= id && #[trigger] self.has_slot(id) ==> self.slot_length(id) == 0
    }

    /// A generation over an opened index and store; entries are appended after the store's bytes in use.
    pub fn open(index_file: AutoIncreaseFileAccess, store_file: AutoIncreaseFileAccess) -> (r: Self)
        ensures
            r.index_file == index_file,
            r.store_file == store_file,
            r.store_append_position == store_file.actual_length,
    {
        let append_position = store_file.length();
        FileItem { index_file, store_file, store_append_position: append_position }
    }
}

/// What `files`, newest first, hold under `id`: the first generation whose index item for
/// `id` is in use and not zero decides.
pub open spec fn lookup(files: Seq<FileItem>, id: int) -> Lookup
    decreases files.len(),
{
    if files.len() == 0 {
        Lookup::Missing
    } else {
        let f = files[0];
        if !f.has_slot(id) || f.slot_length(id) == 0 {
            lookup(files.drop_first(), id)
        } else if f.slot_length(id) < 0 {
            Lookup::Missing
        } else {
            let p = f.slot_position(id) as int;
            let l = f.slot_length(id) as int;
            if p + l <= f.store_file.actual_length {
                Lookup::Found(f.store_file.bytes().subrange(p, p + l))
            } else {
                Lookup::Unreadable
            }
        }
    }
}

/// Generations with the same indexes and stores, byte for byte and in the bytes in use,
/// hold the same entries: an entry box opened again over the files it left holds what it held.
pub proof fn lemma_same_files_same_entries(a: Seq<FileItem>, b: Seq<FileItem>, id: int)
    requires
        a.len() == b.len(),
        forall|i: int|
            #![trigger a[i], b[i]]
            0 <= i < a.len() ==> a[i].index_file.bytes() == b[i].index_file.bytes()
                && a[i].index_file.actual_length == b[i].index_file.actual_length
                && a[i].store_file.bytes() == b[i].store_file.bytes()
                && a[i].store_file.actual_length == b[i].store_file.actual_length,
    ensures
        lookup(a, id) == lookup(b, id),
    decreases a.len(),
{
    if a.len() > 0 {
        assert(a[0].index_file.bytes() == b[0].index_file.bytes());
        assert forall|i: int|
            #![trigger a.drop_first()[i], b.drop_first()[i]]
            0 <= i < a.len() - 1 implies a.drop_first()[i].index_file.bytes() == b.drop_first()[i].index_file.bytes()
                && a.drop_first()[i].index_file.actual_length == b.drop_first()[i].index_file.actual_length
                && a.drop_first()[i].store_file.bytes() == b.drop_first()[i].store_file.bytes()
                && a.drop_first()[i].store_file.actual_length == b.drop_first()[i].store_file.actual_length by {
            assert(a.drop_first()[i] == a[i + 1] && b.drop_first()[i] == b[i + 1]);
        }
        lemma_same_files_same_entries(a.drop_first(), b.drop_first(), id);
    }
}

/// The number of index items in use of the longest index among `files`: every id that
/// any generation has an item for lies below it.
pub open spec fn slot_count(files: Seq<FileItem>) -> int
    decreases files.len(),
{
    if files.len() == 0 {
        0
    } else {
        let a = (files[0].index_file.actual_length / 12) as int;
        let b = slot_count(files.drop_first());
        if a > b { a } else { b }
    }
}

/// No generation has an item for an id at or past the slot count, so such an id holds no
/// entry; and the slot count is at least that of the newest index and stays within reach.
pub proof fn lemma_slot_count(files: Seq<FileItem>, id: int)
    requires
        forall|i: int| 0 <= i < files.len() ==> #[trigger] files[i].wf(),
    ensures
        id >= slot_count(files) ==> lookup(files, id) == Lookup::Missing,
        files.len() > 0 ==> slot_count(files) >= files[0].index_file.actual_length / 12,
        0 <= slot_count(files) <= MAX_ENTRY_ID + 1,
    decreases files.len(),
{
    if files.len() > 0 {
        let d = files.drop_first();
        assert forall|i: int| 0 <= i < d.len() implies #[trigger] d[i].wf() by {
            assert(d[i] == files[i + 1]);
        }
        lemma_slot_count(d, id);
        let len = files[0].index_file.actual_length as int;
        assert(files[0].wf());
        assert(len / 12 <= MAX_ENTRY_ID + 1) by (nonlinear_arith)
            requires
                0 <= len <= u64::MAX - 8,
        ;
        if id >= slot_count(files) {
            assert(!files[0].has_slot(id)) by (nonlinear_arith)
                requires
                    id >= len / 12,
                    len >= 0,
                    files[0].has_slot(id) == (id * 12 + 12 <= len),
            ;
        }
    }
}

/// The total length of the live entries that `files` hold under the ids below `n`.
pub open spec fn live_total(files: Seq<FileItem>, n: int) -> int
    decreases n,
{
    if n <= 0 {
        0
    } else {
        live_total(files, n - 1) + match lookup(files, n - 1) {
            Lookup::Found(b) => b.len() as int,
            _ => 0int,
        }
    }
}

/// The live total only grows with the ids it covers.
pub proof fn lemma_live_total_grows(files: Seq<FileItem>, a: int, b: int)
    requires
        0 <= a <= b,
    ensures
        0 <= live_total(files, a) <= live_total(files, b),
    decreases b - a,
{
    if a < b {
        lemma_live_total_grows(files, a, b - 1);
    } else {
        lemma_live_total_nonneg(files, a);
    }
}

/// Generations that hold the same entries below `n` have the same live total there.
proof fn lemma_live_total_same(a: Seq<FileItem>, b: Seq<FileItem>, n: int)
    requires
        forall|id: int| 0 <= id < n ==> #[trigger] lookup(a, id) == lookup(b, id),
    ensures
        live_total(a, n) == live_total(b, n),
    decreases n,
{
    if n > 0 {
        lemma_live_total_same(a, b, n - 1);
        assert(lookup(a, n - 1) == lookup(b, n - 1));
    }
}

/// Past the slot count the live total grows no more.
proof fn lemma_live_total_past(files: Seq<FileItem>, k: int)
    requires
        forall|i: int| 0 <= i < files.len() ==> #[trigger] files[i].wf(),
        k >= slot_count(files),
    ensures
        live_total(files, k) == live_total(files, slot_count(files)),
    decreases k,
{
    if k > slot_count(files) {
        lemma_live_total_past(files, k - 1);
        lemma_slot_count(files, k - 1);
    }
}

/// An index whose bytes in use end on an item boundary has no item that straddles that end:
/// an id below `id` either has its item in use or starts past the end.
proof fn lemma_aligned_item(len: int, other: int, id: int)
    requires
        len >= 0,
        len % 12 == 0,
        0 <= other < id,
    ensures
        other * 12 + 12 <= len || other * 12 >= len,
{
    assert(other * 12 + 12 <= len || other * 12 >= len) by (nonlinear_arith)
        requires
            len >= 0,
            len % 12 == 0,
            0 <= other,
    ;
}

/// A frame that keeps every id with an item in use or past `id` or past the end of the
/// newest index keeps every id when that index ends on an item boundary. With `readable`,
/// the frame and its conclusion are over the ids that `old` can read.
proof fn lemma_aligned_frame(old: Seq<FileItem>, new: Seq<FileItem>, id: int, readable: bool)
    requires
        old.len() > 0,
        forall|other: int|
            0 <= other && other != id && (old[0].has_slot(other) || other > id || other * 12
                >= old[0].index_file.actual_length) && (readable ==> !(lookup(old, other) is Unreadable))
                ==> #[trigger] lookup(new, other) == lookup(old, other),
    ensures
        old[0].index_file.actual_length % 12 == 0 ==> forall|other: int|
            0 <= other && other != id && (readable ==> !(lookup(old, other) is Unreadable))
                ==> #[trigger] lookup(new, other) == lookup(old, other),
{
    let len = old[0].index_file.actual_length as int;
    if len % 12 == 0 {
        assert forall|other: int|
            0 <= other && other != id && (readable ==> !(lookup(old, other) is Unreadable)) implies #[trigger] lookup(
            new,
            other,
        ) == lookup(old, other) by {
            if other < id {
                lemma_aligned_item(len, other, id);
            }
        }
    }
}

/// The live total is never negative.
proof fn lemma_live_total_nonneg(files: Seq<FileItem>, n: int)
    ensures
        live_total(files, n) >= 0,
    decreases n,
{
    if n > 0 {
        lemma_live_total_nonneg(files, n - 1);
    }
}

/// Whether merging `files` finds what it needs: every entry below the slot count can be
/// read, and the packed entries and the merged index fit the reach of a store position and
/// the address space.
pub open spec fn merge_fits(files: Seq<FileItem>) -> bool {
    let n = slot_count(files);
    &&& forall|id: int| 0 <= id < n ==> !(#[trigger] lookup(files, id) is Unreadable)
    &&& live_total(files, n) <= MAX_STORE_POSITION
    &&& live_total(files, n) + MAX_INCREASE_SIZE + 8 <= usize::MAX
    &&& n * 12 + MAX_INCREASE_SIZE + 8 <= usize::MAX
}

/// Generations that differ only in a newest index that grew have a slot count at least as
/// large, reaching past every item of that index.
pub proof fn lemma_slot_count_grows(a: Seq<FileItem>, b: Seq<FileItem>)
    requires
        a.len() == b.len(),
        a.len() > 0,
        a.drop_first() == b.drop_first(),
        b[0].index_file.actual_length >= a[0].index_file.actual_length,
    ensures
        slot_count(b) >= slot_count(a),
        slot_count(b) >= b[0].index_file.actual_length / 12,
{
    assert(b[0].index_file.actual_length / 12 >= a[0].index_file.actual_length / 12) by (nonlinear_arith)
        requires
            b[0].index_file.actual_length >= a[0].index_file.actual_length,
            a[0].index_file.actual_length >= 0,
    ;
}

/// The live entries of ids `lo` up to `hi`, in the order of their ids.
pub open spec fn found_entries(files: Seq<FileItem>, lo: int, hi: int) -> Seq<Seq<u8>>
    decreases hi - lo,
{
    if hi <= lo {
        seq![]
    } else {
        let before = found_entries(files, lo, hi - 1);
        match lookup(files, hi - 1) {
            Lookup::Found(b) => before.push(b),
            _ => before,
        }
    }
}

/// The ids from `lo` up to `hi`, in increasing order.
pub open spec fn id_range(lo: int, hi: int) -> Seq<int> {
    Seq::new(if hi > lo { (hi - lo) as nat } else { 0nat }, |i: int| lo + i)
}

/// The ids from `lo` up to `hi` under which `files` hold a live entry, in increasing order.
pub open spec fn live_ids(files: Seq<FileItem>, lo: int, hi: int) -> Seq<int> {
    id_range(lo, hi).filter(|id: int| lookup(files, id) is Found)
}

/// The live ids of a range are exactly its ids that hold a live entry, each once and in
/// increasing order.
pub proof fn lemma_live_ids(files: Seq<FileItem>, lo: int, hi: int)
    ensures
        forall|k: int| 0 <= k < live_ids(files, lo, hi).len() ==> lo <= #[trigger] live_ids(files, lo, hi)[k] < hi
            && lookup(files, live_ids(files, lo, hi)[k]) is Found,
        forall|k: int, l: int|
            0 <= k < l < live_ids(files, lo, hi).len() ==> #[trigger] live_ids(files, lo, hi)[k] < #[trigger] live_ids(
                files,
                lo,
                hi,
            )[l],
        forall|id: int|
            lo <= id < hi && #[trigger] lookup(files, id) is Found ==> live_ids(files, lo, hi).contains(id),
    decreases hi - lo,
{
    reveal(Seq::filter);
    let ids = live_ids(files, lo, hi);
    if hi > lo {
        lemma_live_ids(files, lo, hi - 1);
        let before = live_ids(files, lo, hi - 1);
        assert(id_range(lo, hi).drop_last() =~= id_range(lo, hi - 1));
        assert(id_range(lo, hi).last() == hi - 1);
        assert(ids == if lookup(files, hi - 1) is Found { before.push(hi - 1) } else { before });
        assert forall|id: int| lo <= id < hi && #[trigger] lookup(files, id) is Found implies ids.contains(id) by {
            if id < hi - 1 {
                let k = choose|k: int| 0 <= k < before.len() && before[k] == id;
                assert(ids[k] == id);
            } else {
                assert(ids[ids.len() - 1] == id);
            }
        }
    } else {
        assert(id_range(lo, hi).len() == 0);
        assert(ids.len() == 0);
    }
}

/// The entries that `found_entries` lists are those under the live ids of the range, in
/// their order.
proof fn lemma_found_entries_live(files: Seq<FileItem>, lo: int, hi: int)
    ensures
        found_entries(files, lo, hi).len() == live_ids(files, lo, hi).len(),
        forall|k: int|
            0 <= k < live_ids(files, lo, hi).len() ==> #[trigger] found_entries(files, lo, hi)[k] == lookup(
                files,
                live_ids(files, lo, hi)[k],
            )->Found_0,
    decreases hi - lo,
{
    reveal(Seq::filter);
    if hi > lo {
        lemma_found_entries_live(files, lo, hi - 1);
        assert(id_range(lo, hi).drop_last() =~= id_range(lo, hi - 1));
        assert(id_range(lo, hi).last() == hi - 1);
    } else {
        assert(id_range(lo, hi).len() == 0);
    }
}

/// Generations hold files of the sizes they report: a box's store and index sizes are the
/// sums of those of each of its generations.
pub proof fn lemma_size_sums(files: Seq<FileItem>)
    ensures
        files.len() == 0 ==> store_size_sum(files) == 0 && index_size_sum(files) == 0,
        files.len() == 1 ==> store_size_sum(files) == files[0].store_file.file_size && index_size_sum(files)
            == files[0].index_file.file_size,
        files.len() == 2 ==> store_size_sum(files) == files[0].store_file.file_size + files[1].store_file.file_size
            && index_size_sum(files) == files[0].index_file.file_size + files[1].index_file.file_size,
{
    if files.len() > 0 {
        let d = files.drop_last();
        assert(d.len() == files.len() - 1);
        assert(store_size_sum(files) == store_size_sum(d) + files.last().store_file.file_size);
        assert(index_size_sum(files) == index_size_sum(d) + files.last().index_file.file_size);
        if files.len() == 1 {
            assert(store_size_sum(d) == 0 && index_size_sum(d) == 0);
        }
        if files.len() == 2 {
            let dd = d.drop_last();
            assert(dd.len() == 0);
            assert(d.last() == files[0]);
            assert(store_size_sum(d) == store_size_sum(dd) + d.last().store_file.file_size);
            assert(index_size_sum(d) == index_size_sum(dd) + d.last().index_file.file_size);
            assert(store_size_sum(dd) == 0 && index_size_sum(dd) == 0);
        }
    }
}

/// The sum of the sizes of the stores of `files`.
pub open spec fn store_size_sum(files: Seq<FileItem>) -> int
    decreases files.len(),
{
    if files.len() == 0 {
        0
    } else {
        store_size_sum(files.drop_last()) + files.last().store_file.file_size
    }
}

/// The sum of the sizes of the indexes of `files`.
pub open spec fn index_size_sum(files: Seq<FileItem>) -> int
    decreases files.len(),
{
    if files.len() == 0 {
        0
    } else {
        index_size_sum(files.drop_last()) + files.last().index_file.file_size
    }
}

/// `v`, or the largest `u64` where `v` is larger.
pub open spec fn saturate(v: int) -> u64 {
    if v > u64::MAX { u64::MAX } else { v as u64 }
}

/// Compaction keeps, for an id below the number of items in use of the newest index,
/// what the generations held: the newest generation that decides for it in a lookup
/// also decides in the merged one.
pub open spec fn merged_keeps(merged: FileItem, files: Seq<FileItem>, max_id: int) -> bool {
    forall|id: int| 0 <= id < max_id ==> #[trigger] lookup(seq![merged], id) == lookup(files, id)
}

/// A generation made of a merged index and store.
pub open spec fn packed(index_file: AutoIncreaseFileAccess, store_file: AutoIncreaseFileAccess) -> FileItem {
    FileItem { index_file, store_file, store_append_position: store_file.actual_length }
}

/// The merged generation `m` already holds, for every id below `upto`, what `files` hold,
/// with its entries packed before `position`.
pub open spec fn merge_progress(m: FileItem, files: Seq<FileItem>, upto: int, position: int) -> bool {
    forall|j: int|
        0 <= j < upto ==> {
            &&& #[trigger] m.has_slot(j)
            &&& m.slot_length(j) >= 0
            &&& m.slot_length(j) > 0 ==> m.slot_position(j) + m.slot_length(j) <= position
            &&& m.slot_length(j) > 0 ==> m.slot_position(j) == live_total(files, j)
            &&& m.slot_length(j) == 0 ==> m.slot_position(j) == 0
            &&& lookup(seq![m], j) == lookup(files, j)
        }
}

/// Whether appending `len` bytes under `id` finds room: the box has a working generation,
/// the length fits an index item, and both writes fit the address space.
pub open spec fn append_fits(b: BasicBox, id: u64, len: nat) -> bool {
    &&& b.file_array@.len() > 0
    &&& len <= i32::MAX
    &&& b.file_array@[0].store_append_position + len <= MAX_STORE_POSITION
    &&& b.file_array@[0].index_file.write_fits(id * 12, 12)
    &&& b.file_array@[0].store_file.write_fits(b.file_array@[0].store_append_position as int, len as int)
}

/// What a compaction of `old`, writing the merged index over `output_index` and going on
/// with the generation `working`, leaves in `new` when it returns `r`: nothing to merge
/// leaves the box as it was; a box without its metadata file fails and loses its
/// generations; a success puts `working` first and the merged generation after it, which
/// keeps every id below the slot count of the generations, and moves the metadata file on
/// to the next generation number; with a fresh working generation and a merged index that
/// starts no longer than the slot count, every id keeps its entry; any other failure loses
/// the generations. A box with its metadata file whose generations can all be read and fit
/// the reach of the files is compacted.
pub open spec fn compact_effect(
    old: BasicBox,
    new: BasicBox,
    output_index: AutoIncreaseFileAccess,
    working: FileItem,
    r: Result<()>,
) -> bool {
    &&& new.next_id == old.next_id
    &&& old.file_array@.len() == 0 ==> r is Ok && new == old
    &&& old.file_array@.len() > 0 && old.meta_data_file is None ==> (r matches Err(GuiXuError::Corrupt(_)))
        && new.file_array@.len() == 0
    &&& old.file_array@.len() > 0 ==> match r {
        Ok(()) => {
            let max_id = slot_count(old.file_array@);
            let m = old.meta_data_file->Some_0.bytes();
            let merged = new.file_array@[1];
            &&& old.meta_data_file is Some
            &&& new.file_array@.len() == 2
            &&& new.file_array@[0] == working
            &&& merged.store_append_position == merged.store_file.actual_length
            &&& merged.index_file.actual_length == if max_id * 12 > output_index.actual_length {
                max_id * 12
            } else {
                output_index.actual_length as int
            }
            &&& merged_keeps(merged, old.file_array@, max_id as int)
            &&& new.meta_data_file matches Some(fm) && fm.bytes() == seq![
                ((m[0] as int + 1) % 3) as u8,
                if m[1] >= 1 { 2u8 } else { 1u8 },
            ]
            &&& working.holds_no_entries() ==> forall|id: int|
                0 <= id < max_id ==> #[trigger] new.entry(id) == old.entry(id)
        },
        Err(e) => new.file_array@.len() == 0 && (e is Corrupt || e is FileTooLarge),
    }
    &&& old.file_array@.len() > 0 && old.meta_data_file is Some && merge_fits(old.file_array@) ==> r is Ok
    &&& r is Ok && working.holds_no_entries() && output_index.actual_length / 12 <= slot_count(old.file_array@)
        ==> forall|id: int| 0 <= id ==> #[trigger] new.entry(id) == old.entry(id)
}

/// A compaction that kept every entry leaves a box that compacts again: the merged
/// generation holds no more than the old generations did, so what they needed to be merged
/// is still at hand, as long as the new working index stays within reach too.
pub proof fn lemma_compacts_again(old: BasicBox, new: BasicBox, output_index: AutoIncreaseFileAccess, working: FileItem)
    requires
        old.wf(),
        working.wf(),
        compact_effect(old, new, output_index, working, Ok::<(), GuiXuError>(())),
        merge_fits(old.file_array@),
        working.holds_no_entries(),
        output_index.actual_length / 12 <= slot_count(old.file_array@),
        working.index_file.actual_length + MAX_INCREASE_SIZE + 8 <= usize::MAX,
    ensures
        merge_fits(new.file_array@),
        slot_count(new.file_array@) >= slot_count(old.file_array@),
{
    if old.file_array@.len() > 0 {
        let files = new.file_array@;
        let max_id = slot_count(old.file_array@);
        let merged = files[1];
        let len = merged.index_file.actual_length as int;
        let l0 = output_index.actual_length as int;
        lemma_slot_count(old.file_array@, 0);
        assert(len / 12 == max_id) by (nonlinear_arith)
            requires
                l0 / 12 <= max_id,
                l0 >= 0,
                max_id >= 0,
                len == if max_id * 12 > l0 { max_id * 12 } else { l0 },
        ;
        assert(files.drop_first().drop_first() =~= Seq::<FileItem>::empty());
        assert(files.drop_first()[0] == merged);
        let n = slot_count(files);
        let w = working.index_file.actual_length as int;
        assert(files[0] == working);
        assert(slot_count(files.drop_first().drop_first()) == 0);
        assert(slot_count(files.drop_first()) == max_id);
        assert(n == if w / 12 > max_id { w / 12 } else { max_id });
        assert forall|id: int| 0 <= id < n implies !(#[trigger] lookup(files, id) is Unreadable) by {
            assert(new.entry(id) == old.entry(id));
            if id >= max_id {
                lemma_slot_count(old.file_array@, id);
            }
        }
        assert forall|id: int| 0 <= id < n implies #[trigger] lookup(files, id) == lookup(old.file_array@, id) by {
            assert(new.entry(id) == old.entry(id));
        }
        lemma_live_total_same(files, old.file_array@, n);
        lemma_live_total_past(old.file_array@, n);
        assert(n * 12 <= w || n == max_id) by (nonlinear_arith)
            requires
                w >= 0,
                n == if w / 12 > max_id { w / 12 } else { max_id },
        ;
    }
}

/// The numbered entry box.
pub struct BasicBox {
    pub meta_data_file: Option<FixSizeFileAccess>,
    pub file_array: Vec<FileItem>,
    pub next_id: u64,
}

impl BasicBox {
    /// The box is consistent: its images are, the working store is appended to after its
    /// bytes in use, and ids stay within reach.
    pub open spec fn wf(&self) -> bool {
        &&& forall|i: int| 0 <= i < self.file_array@.len() ==> #[trigger] self.file_array@[i].wf()
        &&& self.file_array@.len() <= 2
        &&& self.file_array@.len() > 0 ==> {
            &&& self.file_array@[0].store_file.actual_length <= self.file_array@[0].store_append_position
            &&& self.file_array@[0].store_append_position <= MAX_STORE_POSITION
        }
        &&& 1 <= self.next_id <= MAX_ENTRY_ID + 1
        &&& self.meta_data_file matches Some(m) ==> m.bytes().len() == 2
    }

    /// The generations, newest first.
    pub open spec fn files(&self) -> Seq<FileItem> {
        self.file_array@
    }

    /// What the box holds under `id`.
    pub open spec fn entry(&self, id: int) -> Lookup {
        lookup(self.file_array@, id)
    }

    /// Reads the metadata file, setting it up when it is new, and gives the numbers of the
    /// generations to open, newest first.
    pub fn working_files(meta: &mut FixSizeFileAccess) -> (r: Result<Vec<usize>>)
        requires
            old(meta).bytes().len() == 2,
        ensures
            final(meta).size == old(meta).size,
            old(meta).bytes()[1] > 0 ==> {
                let w = old(meta).bytes()[0] as int;
                let count = if old(meta).bytes()[1] >= 2 { 2int } else { 1int };
                &&& *final(meta) == *old(meta)
                &&& r is Ok
                &&& r->Ok_0@.len() == count
                &&& forall|i: int| 0 <= i < count ==> #[trigger] r->Ok_0@[i] == (w + 3 - i) % 3
            },
            old(meta).bytes()[1] == 0 ==> {
                &&& final(meta).bytes() == seq![0u8, 1u8]
                &&& r is Ok
                &&& r->Ok_0@ == seq![0usize]
            },
    {
        let buffer = meta.read_exact_at(0, 2)?;
        let (working_file_num, file_count): (usize, usize) = if buffer[1] > 0 {
            (buffer[0] as usize, if buffer[1] >= 2 { 2 } else { buffer[1] as usize })
        } else {
            let fresh: [u8; 2] = [0, 1];
            meta.write_all_at(0, &fresh)?;
            assert(meta.bytes() =~= seq![0u8, 1u8]);
            (0, 1)
        };
        let mut nums: Vec<usize> = Vec::new();
        let mut index: usize = 0;
        while index < file_count
            invariant
                file_count <= 2,
                working_file_num <= 255,
                index <= file_count,
                nums@.len() == index,
                forall|i: int| 0 <= i < index ==> #[trigger] nums@[i] == (working_file_num + 3 - i) % 3,
            decreases file_count - index,
        {
            nums.push((working_file_num + 3 - index) % 3);
            index = index + 1;
        }
        Ok(nums)
    }

    /// The number of index items in use of the longest index among `files`.
    pub fn slot_count_of(files: &Vec<FileItem>) -> (r: u64)
        requires
            forall|i: int| 0 <= i < files@.len() ==> #[trigger] files@[i].wf(),
        ensures
            r == slot_count(files@),
    {
        let n = files.len();
        let mut r: u64 = 0;
        let mut i: usize = n;
        assert(files@.subrange(n as int, n as int) =~= Seq::<FileItem>::empty());
        while i > 0
            invariant
                n == files@.len(),
                i <= n,
                forall|j: int| 0 <= j < files@.len() ==> #[trigger] files@[j].wf(),
                r == slot_count(files@.subrange(i as int, n as int)),
            decreases i,
        {
            let ghost rest = files@.subrange(i as int, n as int);
            i = i - 1;
            let ghost cur = files@.subrange(i as int, n as int);
            assert(cur.drop_first() =~= rest);
            assert(cur[0] == files@[i as int]);
            assert(files@[i as int].wf());
            let a = files[i].index_file.length() / INDEX_ITEM_LENGTH;
            if a > r {
                r = a;
            }
        }
        assert(files@.subrange(0, n as int) =~= files@);
        r
    }

    /// The box over its metadata file and its opened generations, newest first; the next
    /// id follows the items in use of the longest index, so it lies past every live entry.
    pub fn open(meta_data_file: FixSizeFileAccess, files: Vec<FileItem>) -> (r: Self)
        requires
            meta_data_file.bytes().len() == 2,
            1 <= files@.len() <= 2,
            forall|i: int| 0 <= i < files@.len() ==> #[trigger] files@[i].wf(),
            files@[0].store_append_position == files@[0].store_file.actual_length,
            files@[0].store_file.actual_length <= MAX_STORE_POSITION,
        ensures
            r.wf(),
            r.meta_data_file == Some(meta_data_file),
            r.file_array@ == files@,
            r.next_id == if slot_count(files@) > 1 { slot_count(files@) } else { 1 },
            r.next_id >= files@[0].index_file.actual_length / 12,
            forall|id: int| #![trigger r.entry(id)] id >= r.next_id ==> r.entry(id) == Lookup::Missing,
    {
        let items = Self::slot_count_of(&files);
        proof {
            lemma_slot_count(files@, 0);
            assert forall|id: int| #![trigger lookup(files@, id)] id >= (if items > 1 { items } else { 1 }) implies lookup(files@, id) == Lookup::Missing by {
                lemma_slot_count(files@, id);
            }
        }
        let next_id = if items > 1 { items } else { 1 };
        BasicBox { meta_data_file: Some(meta_data_file), file_array: files, next_id }
    }

    /// The id that an entry is stored under: a fresh one for id 0, else `id` itself if it
    /// has been handed out.
    pub fn check_id_and_get(&mut self, id: u64) -> (r: Result<u64>)
        requires
            old(self).wf(),
        ensures
            final(self).wf(),
            final(self).file_array == old(self).file_array,
            final(self).meta_data_file == old(self).meta_data_file,
            id == 0 && old(self).next_id <= MAX_ENTRY_ID ==> r == Ok::<u64, GuiXuError>(old(self).next_id)
                && final(self).next_id == old(self).next_id + 1,
            id == 0 && old(self).next_id > MAX_ENTRY_ID ==> r == Err::<u64, GuiXuError>(
                GuiXuError::FileTooLarge(old(self).next_id),
            ) && final(self).next_id == old(self).next_id,
            id != 0 && id < old(self).next_id ==> r == Ok::<u64, GuiXuError>(id) && final(self).next_id
                == old(self).next_id,
            id != 0 && id >= old(self).next_id ==> r == Err::<u64, GuiXuError>(
                GuiXuError::IllegalId { id, next_id: old(self).next_id },
            ) && final(self).next_id == old(self).next_id,
    {
        if id == 0 {
            let id = self.next_id;
            if id > MAX_ENTRY_ID {
                return Err(GuiXuError::FileTooLarge(id));
            }
            self.next_id = id + 1;
            return Ok(id);
        }
        let local_next_id = self.next_id;
        if id >= local_next_id {
            return Err(GuiXuError::IllegalId { id, next_id: local_next_id });
        }
        Ok(id)
    }

    /// Appends `load` to the working store and points the index item of `id` at it.
    #[verifier::rlimit(60)]
    pub fn append_store(&mut self, id: u64, load: &[u8]) -> (r: Result<()>)
        requires
            old(self).wf(),
            id <= MAX_ENTRY_ID,
        ensures
            final(self).wf(),
            final(self).next_id == old(self).next_id,
            final(self).meta_data_file == old(self).meta_data_file,
            final(self).file_array@.len() == old(self).file_array@.len(),
            final(self).file_array@.len() > 0 ==> final(self).file_array@.drop_first()
                == old(self).file_array@.drop_first(),
            old(self).file_array@.len() == 0 ==> r matches Err(GuiXuError::Corrupt(_)),
            old(self).file_array@.len() > 0 && load@.len() > i32::MAX ==> (r matches Err(
                GuiXuError::Corrupt(_),
            )) && final(self).file_array@ == old(self).file_array@,
            match r {
                Ok(()) => {
                    let old0 = old(self).file_array@[0];
                    let new0 = final(self).file_array@[0];
                    let position = old0.store_append_position;
                    &&& old(self).file_array@.len() > 0
                    &&& load@.len() <= i32::MAX
                    &&& position + load@.len() <= MAX_STORE_POSITION
                    &&& new0.store_append_position == position + load@.len()
                    &&& new0.index_file.bytes() == old0.index_file.written(
                        id * 12,
                        index_record(position, load@.len() as i32),
                    )
                    &&& new0.store_file.bytes() == old0.store_file.written(position as int, load@)
                    &&& new0.index_file.actual_length == if id * 12 + 12 > old0.index_file.actual_length {
                        id * 12 + 12
                    } else {
                        old0.index_file.actual_length as int
                    }
                    &&& final(self).entry(id as int) == if load@.len() > 0 {
                        Lookup::Found(load@)
                    } else {
                        lookup(old(self).file_array@.drop_first(), id as int)
                    }
                    &&& forall|other: int|
                        0 <= other && other != id && (old0.has_slot(other) || other > id || other * 12 >= old0.index_file.actual_length) && !(old(
                            self,
                        ).entry(other) is Unreadable) ==> #[trigger] final(self).entry(other) == old(
                            self,
                        ).entry(other)
                    &&& old0.index_file.actual_length % 12 == 0 ==> forall|other: int|
                        0 <= other && other != id && !(old(self).entry(other) is Unreadable)
                            ==> #[trigger] final(self).entry(other) == old(self).entry(other)
                },
                Err(e) => e is Corrupt || e is FileTooLarge,
            },
            append_fits(*old(self), id, load@.len()) ==> r is Ok,
    {
        if self.file_array.len() == 0 {
            return Err(GuiXuError::Corrupt("box is not initialized".to_string()));
        }
        if load.len() > 2147483647 {
            return Err(GuiXuError::Corrupt("entry is larger than i32::MAX".to_string()));
        }
        let length = load.len() as i32;
        let position = self.file_array[0].store_append_position;
        if load.len() as u64 > MAX_STORE_POSITION - position {
            return Err(GuiXuError::FileTooLarge(position));
        }
        let ghost old_files = self.file_array@;
        assert(old_files[0].wf());
        let file_item = &mut self.file_array[0];
        file_item.store_append_position = position + load.len() as u64;
        Self::set_index(&mut file_item.index_file, id, position, length)?;
        file_item.store_file.write_all_at(position, load)?;
        proof {
            let old0 = old_files[0];
            let new0 = self.file_array@[0];
            lemma_written_read(old0.index_file, id * 12, index_record(position, length));
            lemma_written_read(old0.store_file, position as int, load@);
            Self::lemma_record_read(new0, id as int, position, length);
            assert(self.file_array@.drop_first() =~= old_files.drop_first());
            assert forall|other: int|
                0 <= other && other != id && (old0.has_slot(other) || other > id || other * 12 >= old0.index_file.actual_length) && !(lookup(
                    old_files,
                    other,
                ) is Unreadable) implies #[trigger] lookup(self.file_array@, other) == lookup(
                old_files,
                other,
            ) by {
                if !old0.has_slot(other) && other < id {
                    Self::lemma_gap_item(old0.index_file, new0, id * 12, index_record(position, length), other);
                }
                if old0.has_slot(other) {
                    assert(other * 12 + 12 <= id * 12 || id * 12 + 12 <= other * 12);
                    assert(new0.index_file.bytes().subrange(other * 12, other * 12 + 8)
                        == old0.index_file.bytes().subrange(other * 12, other * 12 + 8));
                    assert(new0.index_file.bytes().subrange(other * 12 + 8, other * 12 + 12)
                        == old0.index_file.bytes().subrange(other * 12 + 8, other * 12 + 12));
                    if old0.slot_length(other) > 0 {
                        let p = old0.slot_position(other) as int;
                        let l = old0.slot_length(other) as int;
                        assert(new0.store_file.bytes().subrange(p, p + l)
                            == old0.store_file.bytes().subrange(p, p + l));
                    }
                }
            }
            lemma_aligned_frame(old_files, self.file_array@, id as int, true);
        }
        Ok(())
    }

    /// Twelve zero bytes are the index item of position zero and length zero.
    proof fn lemma_zero_record()
        ensures
            index_record(0, 0) =~= Seq::new(12, |i: int| 0u8),
    {
        let z: u64 = 0;
        let y: u32 = 0;
        assert((z >> 56u64) as u8 == 0 && (z >> 48u64) as u8 == 0 && (z >> 40u64) as u8 == 0 && (z
            >> 32u64) as u8 == 0 && (z >> 24u64) as u8 == 0 && (z >> 16u64) as u8 == 0 && (z >> 8u64)
            as u8 == 0 && z as u8 == 0 && (y >> 24u32) as u8 == 0 && (y >> 16u32) as u8 == 0 && (y
            >> 8u32) as u8 == 0 && y as u8 == 0) by (bit_vector)
            requires
                z == 0,
                y == 0,
        ;
        assert((0i32 as u32) == y);
    }

    /// An index item in the gap that a write left between the bytes in use before it and
    /// where it wrote reads as length zero, so a lookup passes it by as it did before.
    proof fn lemma_gap_item(
        old_index: AutoIncreaseFileAccess,
        new0: FileItem,
        position: int,
        src: Seq<u8>,
        other: int,
    )
        requires
            old_index.wf(),
            0 <= position,
            position + src.len() <= u64::MAX - 8,
            new0.index_file.bytes() == old_index.written(position, src),
            new0.index_file.bytes().len() >= position + src.len(),
            0 <= other,
            other * 12 >= old_index.actual_length,
            other * 12 + 12 <= position,
        ensures
            new0.slot_length(other) == 0,
    {
        lemma_written_gap(old_index, position, src);
        Self::lemma_zero_record();
        let b = new0.index_file.bytes();
        assert(b.subrange(other * 12, other * 12 + 12) =~= index_record(0, 0)) by {
            assert forall|k: int| 0 <= k < 12 implies #[trigger] b.subrange(other * 12, other * 12 + 12)[k] == 0u8 by {
                assert(b[other * 12 + k] == 0);
            }
        }
        Self::lemma_record_read(new0, other, 0, 0);
    }

    /// An index item read back: its position and length are the ones written.
    /// The index item of an id with a slot is the record of the position and length it holds.
    proof fn lemma_slot_record(f: FileItem, id: int)
        requires
            f.wf(),
            0 <= id,
            f.has_slot(id),
        ensures
            f.index_file.bytes().subrange(id * 12, id * 12 + 12) == index_record(f.slot_position(id), f.slot_length(id)),
    {
        let b = f.index_file.bytes();
        crate::byte_ops::lemma_bytes_u64_roundtrip(b.subrange(id * 12, id * 12 + 8));
        crate::byte_ops::lemma_bytes_i32_roundtrip(b.subrange(id * 12 + 8, id * 12 + 12));
        assert(b.subrange(id * 12, id * 12 + 12) =~= b.subrange(id * 12, id * 12 + 8) + b.subrange(id * 12 + 8, id * 12 + 12));
    }

    proof fn lemma_record_read(f: FileItem, id: int, position: u64, length: i32)
        requires
            f.index_file.bytes().subrange(id * 12, id * 12 + 12) == index_record(position, length),
            0 <= id,
            id * 12 + 12 <= f.index_file.bytes().len(),
        ensures
            f.slot_position(id) == position,
            f.slot_length(id) == length,
    {
        let b = f.index_file.bytes();
        assert(b.subrange(id * 12, id * 12 + 8) =~= b.subrange(id * 12, id * 12 + 12).subrange(0, 8));
        assert(b.subrange(id * 12 + 8, id * 12 + 12) =~= b.subrange(id * 12, id * 12 + 12).subrange(8, 12));
        assert(index_record(position, length).subrange(0, 8) =~= spec_u64_to_bytes(position));
        assert(index_record(position, length).subrange(8, 12) =~= spec_i32_to_bytes(length));
        lemma_u64_bytes_roundtrip(position);
        lemma_i32_bytes_roundtrip(length);
    }

    /// The bytes of the live entry `id`.
    pub fn get_byte(&self, id: u64) -> (r: Result<Vec<u8>>)
        requires
            self.wf(),
        ensures
            match self.entry(id as int) {
                Lookup::Found(b) => r is Ok && r->Ok_0@ == b,
                Lookup::Missing => r == Err::<Vec<u8>, GuiXuError>(GuiXuError::EntryNotFound(id)),
                Lookup::Unreadable => r is Err && (r->Err_0 is Corrupt || r->Err_0 is FileTooLarge),
            },
    {
        let n = self.file_array.len();
        let mut i: usize = 0;
        assert(self.file_array@.subrange(0, n as int) =~= self.file_array@);
        while i < n
            invariant
                self.wf(),
                n == self.file_array@.len(),
                i <= n,
                lookup(self.file_array@, id as int) == lookup(self.file_array@.subrange(i as int, n as int), id as int),
            decreases n - i,
        {
            let file_item = &self.file_array[i];
            assert(self.file_array@[i as int].wf());
            let ghost rest = self.file_array@.subrange(i as int, n as int);
            assert(rest[0] == *file_item);
            assert(rest.drop_first() =~= self.file_array@.subrange(i + 1, n as int));
            if id > MAX_ENTRY_ID || id * INDEX_ITEM_LENGTH + INDEX_ITEM_LENGTH > file_item.index_file.length() {
                i = i + 1;
                continue;
            }
            let index_position = id * INDEX_ITEM_LENGTH;
            let length = file_item.index_file.read_i32(index_position + 8)?;
            if length == 0 {
                i = i + 1;
                continue;
            }
            if length < 0 {
                return Err(GuiXuError::EntryNotFound(id));
            }
            let position = file_item.index_file.read_u64(index_position)?;
            let buffer = file_item.store_file.read_exact_at(position, length as usize)?;
            return Ok(buffer);
        }
        assert(self.file_array@.subrange(n as int, n as int).len() == 0);
        Err(GuiXuError::EntryNotFound(id))
    }

    /// Marks entry `id` as removed in the working index.
    #[verifier::rlimit(40)]
    pub fn remove_entry(&mut self, id: u64) -> (r: Result<()>)
        requires
            old(self).wf(),
            id <= MAX_ENTRY_ID,
        ensures
            final(self).wf(),
            final(self).next_id == old(self).next_id,
            final(self).meta_data_file == old(self).meta_data_file,
            final(self).file_array@.len() == old(self).file_array@.len(),
            old(self).file_array@.len() == 0 ==> r matches Err(GuiXuError::Corrupt(_)),
            match r {
                Ok(()) => {
                    let old0 = old(self).file_array@[0];
                    &&& old(self).file_array@.len() > 0
                    &&& final(self).file_array@ == old(self).file_array@.update(0, FileItem {
                        index_file: final(self).file_array@[0].index_file,
                        ..old0
                    })
                    &&& final(self).file_array@[0].index_file.bytes() == old0.index_file.written(
                        id * 12,
                        index_record(0, DELETE_FLAG),
                    )
                    &&& final(self).entry(id as int) == Lookup::Missing
                    &&& final(self).file_array@[0].index_file.actual_length == if id * 12 + 12
                        > old0.index_file.actual_length {
                        id * 12 + 12
                    } else {
                        old0.index_file.actual_length as int
                    }
                    &&& forall|other: int|
                        0 <= other && other != id && (old0.has_slot(other) || other > id || other * 12 >= old0.index_file.actual_length)
                            ==> #[trigger] final(self).entry(other) == old(self).entry(other)
                    &&& old0.index_file.actual_length % 12 == 0 ==> forall|other: int|
                        0 <= other && other != id ==> #[trigger] final(self).entry(other) == old(self).entry(other)
                },
                Err(e) => e is Corrupt || e is FileTooLarge,
            },
            old(self).file_array@.len() > 0 && old(self).file_array@[0].index_file.write_fits(
                id * 12,
                12,
            ) ==> r is Ok,
    {
        if self.file_array.len() == 0 {
            return Err(GuiXuError::Corrupt("box is not initialized".to_string()));
        }
        let ghost old_files = self.file_array@;
        assert(old_files[0].wf());
        let file_item = &mut self.file_array[0];
        Self::set_index(&mut file_item.index_file, id, 0, DELETE_FLAG)?;
        proof {
            let old0 = old_files[0];
            let new0 = self.file_array@[0];
            lemma_written_read(old0.index_file, id * 12, index_record(0, DELETE_FLAG));
            Self::lemma_record_read(new0, id as int, 0, DELETE_FLAG);
            assert(self.file_array@ =~= old_files.update(0, FileItem { index_file: new0.index_file, ..old0 }));
            assert(self.file_array@.drop_first() =~= old_files.drop_first());
            assert forall|other: int|
                0 <= other && other != id && (old0.has_slot(other) || other > id || other * 12 >= old0.index_file.actual_length)
                    implies #[trigger] lookup(self.file_array@, other) == lookup(old_files, other) by {
                if !old0.has_slot(other) && other < id {
                    Self::lemma_gap_item(old0.index_file, new0, id * 12, index_record(0, DELETE_FLAG), other);
                }
                if old0.has_slot(other) {
                    assert(other * 12 + 12 <= id * 12 || id * 12 + 12 <= other * 12);
                    assert(new0.index_file.bytes().subrange(other * 12, other * 12 + 8)
                        == old0.index_file.bytes().subrange(other * 12, other * 12 + 8));
                    assert(new0.index_file.bytes().subrange(other * 12 + 8, other * 12 + 12)
                        == old0.index_file.bytes().subrange(other * 12 + 8, other * 12 + 12));
                }
            }
            lemma_aligned_frame(old_files, self.file_array@, id as int, false);
        }
        Ok(())
    }

    /// The live entries of every id from 1 below the slot count of the generations.
    pub fn all_bytes(&self) -> (r: Result<Vec<Vec<u8>>>)
        requires
            self.wf(),
        ensures
            r is Ok,
            ({
                let expected = found_entries(self.file_array@, 1, slot_count(self.file_array@));
                &&& r->Ok_0@.len() == expected.len()
                &&& forall|k: int| 0 <= k < expected.len() ==> #[trigger] r->Ok_0@[k]@ == expected[k]
            }),
            ({
                let ids = live_ids(self.file_array@, 1, slot_count(self.file_array@));
                &&& r->Ok_0@.len() == ids.len()
                &&& forall|k: int| 0 <= k < ids.len() ==> #[trigger] r->Ok_0@[k]@ == lookup(self.file_array@, ids[k])->Found_0
            }),
    {
        let max_id = Self::slot_count_of(&self.file_array);
        let mut result: Vec<Vec<u8>> = Vec::new();
        let mut id: u64 = 1;
        while id < max_id
            invariant
                self.wf(),
                1 <= id,
                max_id >= 1 ==> id <= max_id,
                max_id == 0 ==> id == 1,
                result@.len() == found_entries(self.file_array@, 1, id as int).len(),
                forall|k: int|
                    0 <= k < result@.len() ==> #[trigger] result@[k]@ == found_entries(
                        self.file_array@,
                        1,
                        id as int,
                    )[k],
            decreases max_id - id,
        {
            let got = self.get_byte(id);
            let ghost before = found_entries(self.file_array@, 1, id as int);
            match got {
                Ok(bytes) => {
                    result.push(bytes);
                },
                Err(_) => {},
            }
            id = id + 1;
            assert(found_entries(self.file_array@, 1, id as int) == match lookup(self.file_array@, id - 1) {
                Lookup::Found(b) => before.push(b),
                _ => before,
            });
        }
        if max_id == 0 {
            assert(found_entries(self.file_array@, 1, id as int) =~= Seq::<Seq<u8>>::empty());
            assert(found_entries(self.file_array@, 1, max_id as int) =~= Seq::<Seq<u8>>::empty());
        } else {
            assert(id == max_id);
        }
        proof {
            lemma_found_entries_live(self.file_array@, 1, max_id as int);
        }
        Ok(result)
    }

    /// The sizes of the stores and of the indexes, each summed over the generations.
    pub fn get_info(&self) -> (r: BoxInfo)
        requires
            self.wf(),
        ensures
            r.data_size == saturate(store_size_sum(self.file_array@)),
            r.index_size == saturate(index_size_sum(self.file_array@)),
            self.file_array@.len() == 0 ==> r.data_size == 0 && r.index_size == 0,
            self.file_array@.len() == 1 ==> r.data_size == self.file_array@[0].store_file.file_size
                && r.index_size == self.file_array@[0].index_file.file_size,
            self.file_array@.len() == 2 ==> r.data_size == saturate(
                self.file_array@[0].store_file.file_size + self.file_array@[1].store_file.file_size,
            ) && r.index_size == saturate(
                self.file_array@[0].index_file.file_size + self.file_array@[1].index_file.file_size,
            ),
    {
        let mut data_size: u64 = 0;
        let mut index_size: u64 = 0;
        let n = self.file_array.len();
        let mut i: usize = 0;
        while i < n
            invariant
                n == self.file_array@.len(),
                i <= n,
                store_size_sum(self.file_array@.subrange(0, i as int)) >= 0,
                index_size_sum(self.file_array@.subrange(0, i as int)) >= 0,
                data_size == saturate(store_size_sum(self.file_array@.subrange(0, i as int))),
                index_size == saturate(index_size_sum(self.file_array@.subrange(0, i as int))),
            decreases n - i,
        {
            let item = &self.file_array[i];
            let ghost old_data = data_size;
            let ghost old_index = index_size;
            data_size = data_size.saturating_add(item.store_file.file_size());
            index_size = index_size.saturating_add(item.index_file.file_size());
            proof {
                let pre = self.file_array@.subrange(0, i as int);
                let post = self.file_array@.subrange(0, i + 1);
                assert(post.drop_last() =~= pre);
                assert(post.last() == *item);
                assert(store_size_sum(post) == store_size_sum(pre) + item.store_file.file_size);
                assert(index_size_sum(post) == index_size_sum(pre) + item.index_file.file_size);
                assert(data_size == saturate(store_size_sum(post)));
                assert(index_size == saturate(index_size_sum(post)));
            }
            i = i + 1;
        }
        assert(self.file_array@.subrange(0, n as int) =~= self.file_array@);
        proof {
            lemma_size_sums(self.file_array@);
        }
        BoxInfo { data_size, index_size }
    }

    /// Lets go of the metadata file and of every generation; the next id stays.
    pub fn clear(&mut self)
        requires
            old(self).wf(),
        ensures
            final(self).wf(),
            final(self).meta_data_file is None,
            final(self).file_array@.len() == 0,
            final(self).next_id == old(self).next_id,
    {
        self.meta_data_file = None;
        self.file_array = Vec::new();
    }

    /// The number of the generation that the next compaction starts, by the metadata file.
    pub fn compaction_working_number(&self) -> (r: Result<usize>)
        requires
            self.wf(),
        ensures
            match self.meta_data_file {
                Some(m) => r == Ok::<usize, GuiXuError>(((m.bytes()[0] as int + 1) % 3) as usize),
                None => r matches Err(GuiXuError::Corrupt(_)),
            },
    {
        match &self.meta_data_file {
            Some(meta) => {
                let buffer = meta.read_exact_at(0, 2)?;
                Ok((buffer[0] as usize + 1) % 3)
            },
            None => Err(GuiXuError::Corrupt("metadata file is closed".to_string())),
        }
    }

    /// The number of bytes in use of the newest index; a compacted index starts that long.
    pub fn active_index_length(&self) -> (r: u64)
        ensures
            self.file_array@.len() > 0 ==> r == self.file_array@[0].index_file.actual_length,
            self.file_array@.len() == 0 ==> r == 0,
    {
        if self.file_array.len() > 0 {
            self.file_array[0].index_file.length()
        } else {
            0
        }
    }

    /// Copies the entry that `merge_files` hold under every id below their slot count into
    /// `output_store`, packed from position zero in the order of the ids, and records it in
    /// `output_index`; an id without a live entry gets a zero item.
    fn merge_file(
        output_store: &mut AutoIncreaseFileAccess,
        output_index: &mut AutoIncreaseFileAccess,
        merge_files: &Vec<FileItem>,
    ) -> (r: Result<()>)
        requires
            old(output_store).wf(),
            old(output_index).wf(),
            forall|i: int| 0 <= i < merge_files@.len() ==> #[trigger] merge_files@[i].wf(),
        ensures
            final(output_store).wf(),
            final(output_index).wf(),
            r is Ok && merge_files@.len() > 0 ==> {
                let n = slot_count(merge_files@);
                let m = packed(*final(output_index), *final(output_store));
                &&& merged_keeps(m, merge_files@, n)
                &&& forall|j: int|
                    0 <= j < n ==> #[trigger] m.has_slot(j) && (m.slot_length(j) > 0 ==> m.slot_position(j)
                        == live_total(merge_files@, j)) && m.slot_length(j) == match lookup(merge_files@, j) {
                        Lookup::Found(b) => b.len() as int,
                        _ => 0int,
                    }
                &&& forall|j: int|
                    0 <= j < n && !(lookup(merge_files@, j) is Found) ==> #[trigger] m.index_file.bytes().subrange(
                        j * 12,
                        j * 12 + 12,
                    ) == index_record(0, 0)
                &&& final(output_index).actual_length == if n * 12 > old(output_index).actual_length {
                    n * 12
                } else {
                    old(output_index).actual_length as int
                }
            },
            r is Err ==> (r->Err_0 is Corrupt || r->Err_0 is FileTooLarge),
            merge_fits(merge_files@) ==> r is Ok,
    {
        let n = merge_files.len();
        if n == 0 {
            return Ok(());
        }
        let max_id = Self::slot_count_of(merge_files);
        proof {
            lemma_slot_count(merge_files@, 0);
        }
        let mut new_position: u64 = 0;
        let mut id: u64 = 0;
        let ghost init_index = output_index.actual_length;
        while id < max_id
            invariant
                n == merge_files@.len(),
                n > 0,
                max_id == slot_count(merge_files@),
                max_id <= MAX_ENTRY_ID + 1,
                forall|i: int| 0 <= i < merge_files@.len() ==> #[trigger] merge_files@[i].wf(),
                output_store.wf(),
                output_index.wf(),
                id <= max_id,
                new_position <= output_store.actual_length,
                new_position <= MAX_STORE_POSITION,
                new_position == live_total(merge_files@, id as int),
                output_index.actual_length == if id * 12 > init_index { id * 12 } else { init_index as int },
                merge_progress(packed(*output_index, *output_store), merge_files@, id as int, new_position as int),
            decreases max_id - id,
        {
            let step = Self::merge_entry(output_store, output_index, merge_files, id, new_position);
            match step {
                Ok(p) => {
                    new_position = p;
                },
                Err(e) => {
                    proof {
                        if merge_fits(merge_files@) {
                            lemma_live_total_grows(merge_files@, id + 1, max_id as int);
                            assert(!(lookup(merge_files@, id as int) is Unreadable));
                        }
                    }
                    return Err(e);
                },
            }
            id = id + 1;
        }
        proof {
            let m = packed(*output_index, *output_store);
            assert forall|j: int| 0 <= j < max_id implies #[trigger] m.has_slot(j) && (m.slot_length(j) > 0
                ==> m.slot_position(j) == live_total(merge_files@, j)) && m.slot_length(j) == match lookup(
                merge_files@,
                j,
            ) {
                Lookup::Found(b) => b.len() as int,
                _ => 0int,
            } by {
                assert(m.has_slot(j));
                assert(seq![m][0] == m);
                assert(lookup(seq![m], j) == lookup(merge_files@, j));
                if m.slot_length(j) > 0 {
                    let p = m.slot_position(j) as int;
                    let l = m.slot_length(j) as int;
                    assert(p + l <= new_position);
                    assert(p + l <= m.store_file.actual_length);
                    assert(lookup(seq![m], j) == Lookup::Found(m.store_file.bytes().subrange(p, p + l)));
                } else {
                    assert(seq![m].drop_first() =~= Seq::<FileItem>::empty());
                    assert(lookup(Seq::<FileItem>::empty(), j) == Lookup::Missing);
                    assert(lookup(seq![m], j) == Lookup::Missing);
                }
            }
            assert forall|j: int| 0 <= j < max_id implies #[trigger] lookup(seq![m], j) == lookup(merge_files@, j) by {
                assert(m.has_slot(j));
            }
            assert forall|j: int| 0 <= j < max_id && !(lookup(merge_files@, j) is Found) implies #[trigger] output_index.bytes().subrange(
                j * 12,
                j * 12 + 12,
            ) == index_record(0, 0) by {
                assert(m.has_slot(j));
                assert(seq![m][0] == m);
                if m.slot_length(j) > 0 {
                    assert(lookup(seq![m], j) is Found);
                }
                Self::lemma_slot_record(m, j);
            }
        }
        Ok(())
    }

    /// The generation that decides what `merge_files` hold under `id`, with the length it
    /// records, or none when they hold no live entry for it.
    fn select_entry(merge_files: &Vec<FileItem>, id: u64) -> (r: Result<Option<(usize, i32)>>)
        requires
            forall|i: int| 0 <= i < merge_files@.len() ==> #[trigger] merge_files@[i].wf(),
            id <= MAX_ENTRY_ID,
        ensures
            match r {
                Ok(None) => lookup(merge_files@, id as int) == Lookup::Missing,
                Ok(Some((k, l))) => {
                    &&& k < merge_files@.len()
                    &&& merge_files@[k as int].has_slot(id as int)
                    &&& merge_files@[k as int].slot_length(id as int) == l
                    &&& l > 0
                    &&& lookup(merge_files@, id as int) == lookup(
                        merge_files@.subrange(k as int, merge_files@.len() as int),
                        id as int,
                    )
                },
                Err(e) => false,
            },
    {
        let n = merge_files.len();
        let index_position = id * INDEX_ITEM_LENGTH;
        let mut k: usize = 0;
        let mut selected: Option<(usize, i32)> = None;
        let mut stopped = false;
        assert(merge_files@.subrange(0, n as int) =~= merge_files@);
        while k < n
            invariant
                n == merge_files@.len(),
                forall|i: int| 0 <= i < merge_files@.len() ==> #[trigger] merge_files@[i].wf(),
                id <= MAX_ENTRY_ID,
                index_position == id * 12,
                k <= n,
                stopped ==> k == n,
                !stopped ==> selected is None && lookup(merge_files@, id as int) == lookup(
                    merge_files@.subrange(k as int, n as int),
                    id as int,
                ),
                stopped && selected is None ==> lookup(merge_files@, id as int) == Lookup::Missing,
                selected matches Some((kk, l)) ==> {
                    &&& stopped
                    &&& kk < n
                    &&& merge_files@[kk as int].has_slot(id as int)
                    &&& merge_files@[kk as int].slot_length(id as int) == l
                    &&& l > 0
                    &&& lookup(merge_files@, id as int) == lookup(
                        merge_files@.subrange(kk as int, n as int),
                        id as int,
                    )
                },
            decreases n - k,
        {
            assert(merge_files@[k as int].wf());
            let file_item = &merge_files[k];
            let ghost rest = merge_files@.subrange(k as int, n as int);
            assert(rest[0] == merge_files@[k as int]);
            assert(rest.drop_first() =~= merge_files@.subrange(k + 1, n as int));
            if index_position + INDEX_ITEM_LENGTH > file_item.index_file.length() {
                k = k + 1;
            } else {
                let length = match file_item.index_file.read_i32(index_position + 8) {
                    Ok(v) => v,
                    Err(e) => {
                        return Err(e);
                    },
                };
                assert(file_item.has_slot(id as int));
                assert(file_item.slot_length(id as int) == length);
                if length > 0 {
                    selected = Some((k, length));
                    stopped = true;
                    k = n;
                } else if length < 0 {
                    stopped = true;
                    k = n;
                } else {
                    k = k + 1;
                }
            }
        }
        if !stopped {
            assert(merge_files@.subrange(k as int, n as int).len() == 0);
        }
        Ok(selected)
    }

    /// Merges the entry of `id` into the output files, its bytes going at `new_position`;
    /// gives the position after them.
    #[verifier::rlimit(80)]
    fn merge_entry(
        output_store: &mut AutoIncreaseFileAccess,
        output_index: &mut AutoIncreaseFileAccess,
        merge_files: &Vec<FileItem>,
        id: u64,
        new_position: u64,
    ) -> (r: Result<u64>)
        requires
            old(output_store).wf(),
            old(output_index).wf(),
            forall|i: int| 0 <= i < merge_files@.len() ==> #[trigger] merge_files@[i].wf(),
            id <= MAX_ENTRY_ID,
            new_position <= old(output_store).actual_length,
            new_position <= MAX_STORE_POSITION,
            new_position == live_total(merge_files@, id as int),
            merge_progress(packed(*old(output_index), *old(output_store)), merge_files@, id as int, new_position as int),
        ensures
            final(output_store).wf(),
            final(output_index).wf(),
            match r {
                Ok(p) => {
                    &&& p <= final(output_store).actual_length
                    &&& p <= MAX_STORE_POSITION
                    &&& p == live_total(merge_files@, id + 1)
                    &&& final(output_index).actual_length == if id * 12 + 12 > old(output_index).actual_length {
                        id * 12 + 12
                    } else {
                        old(output_index).actual_length as int
                    }
                    &&& merge_progress(packed(*final(output_index), *final(output_store)), merge_files@, id + 1, p as int)
                },
                Err(e) => e is Corrupt || e is FileTooLarge,
            },
            !(lookup(merge_files@, id as int) is Unreadable) && live_total(merge_files@, id + 1) <= MAX_STORE_POSITION
                && live_total(merge_files@, id + 1) + MAX_INCREASE_SIZE + 8 <= usize::MAX && id * 12 + 12
                + MAX_INCREASE_SIZE + 8 <= usize::MAX ==> r is Ok,
    {
        let index_position = id * INDEX_ITEM_LENGTH;
        let ghost files = merge_files@;
        let ghost before_index = *output_index;
        let ghost before_store = *output_store;
        let selected = Self::select_entry(merge_files, id)?;
        match selected {
            None => {
                let zero: [u8; 12] = [0u8; 12];
                assert(zero@ =~= index_record(0, 0)) by {
                    let z: u64 = 0;
                    let y: u32 = 0;
                    assert((z >> 56u64) as u8 == 0 && (z >> 48u64) as u8 == 0 && (z >> 40u64) as u8
                        == 0 && (z >> 32u64) as u8 == 0 && (z >> 24u64) as u8 == 0 && (z >> 16u64)
                        as u8 == 0 && (z >> 8u64) as u8 == 0 && z as u8 == 0 && (y >> 24u32) as u8
                        == 0 && (y >> 16u32) as u8 == 0 && (y >> 8u32) as u8 == 0 && y as u8 == 0)
                        by (bit_vector)
                        requires
                            z == 0,
                            y == 0,
                    ;
                    assert((0i32 as u32) == y);
                }
                proof {
                    if id * 12 + 12 + MAX_INCREASE_SIZE + 8 <= usize::MAX {
                        lemma_grown_fits(before_index, id * 12, 12, id * 12 + 12);
                    }
                }
                output_index.write_all_at(index_position, &zero)?;
                proof {
                    lemma_written_read(before_index, id * 12, zero@);
                    let m = packed(*output_index, *output_store);
                    Self::lemma_record_read(m, id as int, 0, 0);
                    Self::lemma_merge_step(before_index, *output_index, before_store, *output_store, files, id as int, new_position as int);
                    assert(m.has_slot(id as int));
                    assert(seq![m][0] == m);
                    assert(seq![m].drop_first() =~= Seq::<FileItem>::empty());
                    assert(lookup(Seq::<FileItem>::empty(), id as int) == Lookup::Missing);
                    assert(lookup(seq![m], id as int) == Lookup::Missing);
                    Self::lemma_merge_extend(m, files, id as int, new_position as int, new_position as int);
                }
                Ok(new_position)
            },
            Some((kk, length)) => {
                assert(files[kk as int].wf());
                let file_item = &merge_files[kk];
                let old_position = file_item.index_file.read_u64(index_position)?;
                proof {
                    let rest = files.subrange(kk as int, files.len() as int);
                    assert(rest[0] == files[kk as int]);
                    assert(rest.len() > 0);
                }
                let buffer = file_item.store_file.read_exact_at(old_position, length as usize)?;
                proof {
                    assert(lookup(files, id as int) == Lookup::Found(buffer@));
                    assert(live_total(files, id + 1) == new_position + length);
                }
                if length as u64 > MAX_STORE_POSITION - new_position {
                    return Err(GuiXuError::FileTooLarge(new_position));
                }
                proof {
                    if live_total(files, id + 1) + MAX_INCREASE_SIZE + 8 <= usize::MAX {
                        lemma_grown_fits(before_store, new_position as int, length as int, new_position + length);
                    }
                }
                output_store.write_all_at(new_position, buffer.as_slice())?;
                let ghost mid_index = *output_index;
                proof {
                    if id * 12 + 12 + MAX_INCREASE_SIZE + 8 <= usize::MAX {
                        lemma_grown_fits(mid_index, id * 12, 8, id * 12 + 12);
                    }
                }
                output_index.write_u64(index_position, new_position)?;
                let ghost mid_index2 = *output_index;
                proof {
                    if id * 12 + 12 + MAX_INCREASE_SIZE + 8 <= usize::MAX {
                        lemma_grown_fits(mid_index2, id * 12 + 8, 4, id * 12 + 12);
                    }
                }
                output_index.write_i32(index_position + 8, length)?;
                proof {
                    let rest = files.subrange(kk as int, files.len() as int);
                    assert(rest[0] == files[kk as int]);
                    lemma_written_read(before_store, new_position as int, buffer@);
                    lemma_written_read(mid_index, id * 12, spec_u64_to_bytes(new_position));
                    lemma_written_read(mid_index2, id * 12 + 8, spec_i32_to_bytes(length));
                    let b = output_index.bytes();
                    assert(b.subrange(id * 12, id * 12 + 8) =~= mid_index2.bytes().subrange(id * 12, id * 12 + 8));
                    assert(b.subrange(id * 12, id * 12 + 12) =~= b.subrange(id * 12, id * 12 + 8) + b.subrange(id * 12 + 8, id * 12 + 12));
                    assert(b.subrange(id * 12, id * 12 + 12) =~= index_record(new_position, length));
                    let m = packed(*output_index, *output_store);
                    Self::lemma_record_read(m, id as int, new_position, length);
                    Self::lemma_merge_step(before_index, *output_index, before_store, *output_store, files, id as int, new_position as int);
                    assert(m.store_file.bytes().subrange(new_position as int, new_position + length) =~= buffer@);
                    assert(m.has_slot(id as int));
                    assert(seq![m][0] == m);
                    assert(lookup(seq![m], id as int) == lookup(files, id as int));
                    Self::lemma_merge_extend(m, files, id as int, new_position as int, new_position + length);
                }
                Ok(new_position + length as u64)
            },
        }
    }

    /// Merge progress extends to `id` once the merged generation holds for `id` what the
    /// generations hold, with its bytes before `position`.
    proof fn lemma_merge_extend(m: FileItem, files: Seq<FileItem>, id: int, old_position: int, position: int)
        requires
            0 <= id,
            old_position <= position,
            merge_progress(m, files, id, old_position),
            m.has_slot(id),
            m.slot_length(id) >= 0,
            m.slot_length(id) > 0 ==> m.slot_position(id) + m.slot_length(id) <= position,
            m.slot_length(id) > 0 ==> m.slot_position(id) == live_total(files, id),
            m.slot_length(id) == 0 ==> m.slot_position(id) == 0,
            lookup(seq![m], id) == lookup(files, id),
        ensures
            merge_progress(m, files, id + 1, position),
    {
        assert forall|j: int| 0 <= j < id + 1 implies {
            &&& #[trigger] m.has_slot(j)
            &&& m.slot_length(j) >= 0
            &&& m.slot_length(j) > 0 ==> m.slot_position(j) + m.slot_length(j) <= position
            &&& m.slot_length(j) > 0 ==> m.slot_position(j) == live_total(files, j)
            &&& m.slot_length(j) == 0 ==> m.slot_position(j) == 0
            &&& lookup(seq![m], j) == lookup(files, j)
        } by {
            if j < id {
                assert(m.has_slot(j));
            }
        }
    }

    /// A merge step keeps what the merged generation holds for the ids before it: it writes
    /// only the item of `id` and store bytes from `position` on.
    proof fn lemma_merge_step(
        index_before: AutoIncreaseFileAccess,
        index_after: AutoIncreaseFileAccess,
        store_before: AutoIncreaseFileAccess,
        store_after: AutoIncreaseFileAccess,
        files: Seq<FileItem>,
        id: int,
        position: int,
    )
        requires
            0 <= id,
            index_before.actual_length <= index_after.actual_length,
            store_before.actual_length <= store_after.actual_length,
            position <= store_before.actual_length,
            forall|a: int, b: int|
                0 <= a <= b <= index_before.actual_length && (b <= id * 12 || id * 12 + 12 <= a)
                    ==> #[trigger] index_after.bytes().subrange(a, b) == index_before.bytes().subrange(a, b),
            forall|a: int, b: int|
                0 <= a <= b <= store_before.actual_length && b <= position
                    ==> #[trigger] store_after.bytes().subrange(a, b) == store_before.bytes().subrange(a, b),
            merge_progress(packed(index_before, store_before), files, id, position),
        ensures
            merge_progress(packed(index_after, store_after), files, id, position),
    {
        let mb = packed(index_before, store_before);
        let ma = packed(index_after, store_after);
        assert forall|j: int| 0 <= j < id implies {
            &&& #[trigger] ma.has_slot(j)
            &&& ma.slot_length(j) >= 0
            &&& ma.slot_length(j) > 0 ==> ma.slot_position(j) + ma.slot_length(j) <= position
            &&& ma.slot_length(j) > 0 ==> ma.slot_position(j) == live_total(files, j)
            &&& ma.slot_length(j) == 0 ==> ma.slot_position(j) == 0
            &&& lookup(seq![ma], j) == lookup(files, j)
        } by {
            assert(mb.has_slot(j));
            assert(index_after.bytes().subrange(j * 12, j * 12 + 8) == index_before.bytes().subrange(j * 12, j * 12 + 8));
            assert(index_after.bytes().subrange(j * 12 + 8, j * 12 + 12) == index_before.bytes().subrange(j * 12 + 8, j * 12 + 12));
            assert(ma.slot_length(j) == mb.slot_length(j));
            assert(ma.slot_position(j) == mb.slot_position(j));
            assert(seq![ma].drop_first() =~= seq![mb].drop_first());
            if mb.slot_length(j) > 0 {
                let p = mb.slot_position(j) as int;
                let l = mb.slot_length(j) as int;
                assert(store_after.bytes().subrange(p, p + l) == store_before.bytes().subrange(p, p + l));
            }
        }
    }

    /// Merges every generation into one, packed: the merged store and index are written
    /// into `output_store` and `output_index`, and the box goes on with `working` as its
    /// newest generation and the merged one after it. The metadata file then names the
    /// generation after the one it named, and counts one more generation, up to two.
    pub fn compact(
        &mut self,
        output_store: AutoIncreaseFileAccess,
        output_index: AutoIncreaseFileAccess,
        working: FileItem,
    ) -> (r: Result<()>)
        requires
            old(self).wf(),
            output_store.wf(),
            output_index.wf(),
            working.wf(),
            working.store_append_position == working.store_file.actual_length,
            working.store_file.actual_length <= MAX_STORE_POSITION,
        ensures
            final(self).wf(),
            final(self).next_id == old(self).next_id,
            old(self).file_array@.len() == 0 ==> r is Ok && *final(self) == *old(self),
            old(self).file_array@.len() > 0 && old(self).meta_data_file is None ==> (r matches Err(GuiXuError::Corrupt(_)))
                && final(self).file_array@.len() == 0,
            old(self).file_array@.len() > 0 ==> match r {
                Ok(()) => {
                    let max_id = slot_count(old(self).file_array@);
                    let m = old(self).meta_data_file->Some_0.bytes();
                    let merged = final(self).file_array@[1];
                    &&& old(self).meta_data_file is Some
                    &&& final(self).file_array@.len() == 2
                    &&& final(self).file_array@[0] == working
                    &&& merged.store_append_position == merged.store_file.actual_length
                    &&& merged.index_file.actual_length == if max_id * 12 > output_index.actual_length {
                        max_id * 12
                    } else {
                        output_index.actual_length as int
                    }
                    &&& merged_keeps(merged, old(self).file_array@, max_id as int)
                    &&& final(self).meta_data_file matches Some(fm) && fm.bytes() == seq![
                        ((m[0] as int + 1) % 3) as u8,
                        if m[1] >= 1 { 2u8 } else { 1u8 },
                    ]
                    &&& working.holds_no_entries() ==> forall|id: int|
                        0 <= id < max_id ==> #[trigger] final(self).entry(id) == old(self).entry(id)
                },
                Err(e) => final(self).file_array@.len() == 0 && (e is Corrupt || e is FileTooLarge),
            },
            old(self).file_array@.len() > 0 && old(self).meta_data_file is Some && merge_fits(old(self).file_array@)
                ==> r is Ok,
            r is Ok && working.holds_no_entries() && output_index.actual_length / 12 <= slot_count(
                old(self).file_array@,
            ) ==> forall|id: int| 0 <= id ==> #[trigger] final(self).entry(id) == old(self).entry(id),
    {
        let mut old_files: Vec<FileItem> = Vec::new();
        std::mem::swap(&mut old_files, &mut self.file_array);
        if old_files.len() == 0 {
            std::mem::swap(&mut old_files, &mut self.file_array);
            return Ok(());
        }
        let mut meta_buffer = match &self.meta_data_file {
            Some(meta) => meta.read_exact_at(0, 2)?,
            None => {
                return Err(GuiXuError::Corrupt("metadata file is closed".to_string()));
            },
        };
        let working_file_num = (meta_buffer[0] as usize + 1) % 3;
        let ghost init_index = output_index;
        let mut output_store = output_store;
        let mut output_index = output_index;
        Self::merge_file(&mut output_store, &mut output_index, &old_files)?;
        let compacted = FileItem::open(output_index, output_store);
        let mut files: Vec<FileItem> = Vec::new();
        files.push(working);
        files.push(compacted);
        self.file_array = files;
        let count = if meta_buffer[1] >= 1 { 2u8 } else { 1u8 };
        meta_buffer.set(0, working_file_num as u8);
        meta_buffer.set(1, count);
        match &mut self.meta_data_file {
            Some(meta) => {
                meta.write_all_at(0, meta_buffer.as_slice())?;
                assert(meta.bytes() =~= meta_buffer@);
            },
            None => {},
        }
        proof {
            let w = self.file_array@[0];
            let merged = self.file_array@[1];
            let max_id = slot_count(old_files@);
            assert(self.file_array@.drop_first() =~= seq![merged]);
            if working.holds_no_entries() {
                assert forall|id: int| 0 <= id < max_id implies #[trigger] lookup(self.file_array@, id)
                    == lookup(old_files@, id) by {
                    assert(lookup(seq![merged], id) == lookup(old_files@, id));
                    if w.has_slot(id) {
                        assert(w.slot_length(id) == 0);
                    }
                }
                if init_index.actual_length / 12 <= max_id {
                    assert(merged.index_file.actual_length == if max_id * 12 > init_index.actual_length {
                        max_id * 12
                    } else {
                        init_index.actual_length as int
                    });
                    assert forall|id: int| 0 <= id implies #[trigger] lookup(self.file_array@, id) == lookup(old_files@, id) by {
                        if id >= max_id {
                            lemma_slot_count(old_files@, id);
                            let len = merged.index_file.actual_length as int;
                            let l0 = init_index.actual_length as int;
                            assert(!merged.has_slot(id)) by (nonlinear_arith)
                                requires
                                    id >= max_id,
                                    l0 / 12 <= max_id,
                                    l0 >= 0,
                                    len == if max_id * 12 > l0 { max_id * 12 } else { l0 },
                                    merged.has_slot(id) == (id * 12 + 12 <= len),
                            ;
                            assert(seq![merged].drop_first() =~= Seq::<FileItem>::empty());
                            assert(lookup(Seq::<FileItem>::empty(), id) == Lookup::Missing);
                            assert(seq![merged][0] == merged);
                            assert(lookup(seq![merged], id) == Lookup::Missing);
                            if w.has_slot(id) {
                                assert(w.slot_length(id) == 0);
                            }
                            assert(self.file_array@[0] == w);
                            assert(lookup(self.file_array@, id) == lookup(seq![merged], id));
                        } else {
                            assert(lookup(self.file_array@, id) == lookup(old_files@, id));
                        }
                    }
                }
            }
        }
        Ok(())
    }

    /// Writes the index item of `id`.
    fn set_index(file: &mut AutoIncreaseFileAccess, id: u64, position: u64, length: i32) -> (r:
        Result<()>)
        requires
            old(file).wf(),
            id <= MAX_ENTRY_ID,
        ensures
            final(file).wf(),
            match r {
                Ok(()) => {
                    &&& old(file).write_fits(id * 12, 12)
                    &&& final(file).bytes() == old(file).written(id * 12, index_record(position, length))
                    &&& final(file).actual_length == if id * 12 + 12 > old(file).actual_length {
                        (id * 12 + 12) as u64
                    } else {
                        old(file).actual_length
                    }
                },
                Err(e) => !old(file).write_fits(id * 12, 12) && *final(file) == *old(file)
                    && e is FileTooLarge,
            },
    {
        let file_position = id * INDEX_ITEM_LENGTH;
        let p = u64_to_bytes(position);
        let l = i32_to_bytes(length);
        let buffer: [u8; 12] = [p[0], p[1], p[2], p[3], p[4], p[5], p[6], p[7], l[0], l[1], l[2], l[3]];
        assert(buffer@ =~= index_record(position, length));
        file.write_all_at(file_position, &buffer)
    }
}

} // verus!
