use guixu::basic_box::{BasicBox, FileItem};
use guixu::byte_array_box::ByteArrayBox;
use guixu::error::{GuiXuError, Result};
use guixu::file_access::{AutoIncreaseFileAccess, FixSizeFileAccess};
use guixu::kv_box::KVBox;
use guixu::typed_box::{StoreData, TypedBox};

/// A fresh entry box, as opening it in an empty directory gives.
fn fresh_basic() -> BasicBox {
    let mut meta = FixSizeFileAccess::open(Vec::new(), 2).unwrap();
    let nums = BasicBox::working_files(&mut meta).unwrap();
    let mut files = Vec::new();
    for _ in nums {
        let index = AutoIncreaseFileAccess::open(Vec::new(), 12).unwrap();
        let store = AutoIncreaseFileAccess::open(Vec::new(), 0).unwrap();
        files.push(FileItem::open(index, store));
    }
    BasicBox::open(meta, files)
}

/// The entry box opened again over the images of `basic`'s files.
fn reopen_basic(basic: &BasicBox) -> BasicBox {
    let meta_bytes = basic.meta_data_file.as_ref().unwrap().data.clone();
    let mut meta = FixSizeFileAccess::open(meta_bytes, 2).unwrap();
    let nums = BasicBox::working_files(&mut meta).unwrap();
    let mut files = Vec::new();
    for (i, _) in nums.iter().enumerate() {
        let item = &basic.file_array[i];
        let index = AutoIncreaseFileAccess::open(item.index_file.image().clone(), 12).unwrap();
        let store = AutoIncreaseFileAccess::open(item.store_file.image().clone(), 0).unwrap();
        files.push(FileItem::open(index, store));
    }
    BasicBox::open(meta, files)
}

/// A fresh key/value box.
fn fresh_kv() -> KVBox {
    let map_file = AutoIncreaseFileAccess::open(Vec::new(), 4).unwrap();
    KVBox::open(fresh_basic(), map_file).unwrap()
}

/// The key/value box opened again over the images of `kv`'s files.
fn reopen_kv(kv: &KVBox) -> Result<KVBox> {
    let basic = reopen_basic(&kv.basic);
    let map_file = AutoIncreaseFileAccess::open(kv.map_file.as_ref().unwrap().image().clone(), 4)?;
    KVBox::open(basic, map_file)
}

#[derive(Debug, Clone, PartialEq)]
struct TestClass {
    id: u64,
    name: String,
    age: i32,
}

impl StoreData for TestClass {
    fn stored_id(&self) -> u64 {
        self.id
    }

    fn id(&self) -> u64 {
        self.id
    }

    fn set_id(&mut self, id: u64) {
        self.id = id;
    }
}

fn encode(data: &TestClass) -> Vec<u8> {
    bincode::serialize(&(data.id, data.name.clone(), data.age)).unwrap()
}

fn decode(bytes: &[u8]) -> TestClass {
    let (id, name, age): (u64, String, i32) = bincode::deserialize(bytes).unwrap();
    TestClass { id, name, age }
}

#[test]
fn byte_array_box_round_trips() -> Result<()> {
    let mut box_ = ByteArrayBox::open(fresh_basic());

    let id = box_.put(0, b"hello".to_vec())?;

    assert_eq!(id, 1);
    assert_eq!(box_.get(id)?, b"hello".to_vec());
    Ok(())
}

#[test]
fn kv_box_round_trips_primitives() -> Result<()> {
    let mut kv = fresh_kv();

    kv.put_string("name", "GuiXu")?;
    kv.put_int("age", 18)?;
    kv.put_bool("enabled", true)?;

    assert_eq!(kv.get_string("name")?, "GuiXu");
    assert_eq!(kv.get_int("age")?, 18);
    assert!(kv.get_bool("enabled")?);
    Ok(())
}

#[test]
fn kv_box_preserves_numeric_key_semantics_after_reopen() -> Result<()> {
    let mut kv = fresh_kv();

    kv.put_string("1", "numeric")?;
    kv.put_string("01", "string")?;
    kv.close()?;

    let mut reopened = reopen_kv(&kv)?;
    assert_eq!(reopened.get_string("1")?, "numeric");
    assert_eq!(reopened.get_string("01")?, "string");

    reopened.put_string("1", "updated")?;
    assert_eq!(reopened.get_string("1")?, "updated");
    assert_eq!(reopened.get_string("01")?, "string");
    Ok(())
}

#[test]
fn kv_box_handles_sparse_numeric_keys_after_reopen() -> Result<()> {
    let mut kv = fresh_kv();

    kv.put_string("5000", "sparse")?;
    kv.put_string("0", "dense")?;
    kv.close()?;

    let reopened = reopen_kv(&kv)?;
    assert_eq!(reopened.get_string("5000")?, "sparse");
    assert_eq!(reopened.get_string("0")?, "dense");
    Ok(())
}

#[test]
fn typed_box_round_trips_store_data() -> Result<()> {
    let mut box_: TypedBox<TestClass> = TypedBox::open(fresh_basic());
    let mut data = TestClass {
        id: 0,
        name: "Aa".to_string(),
        age: 18,
    };

    let id = box_.assign_id(&mut data)?;
    box_.store(id, &encode(&data))?;
    let mut loaded = decode(&box_.get_bytes(id)?);
    loaded.set_id(id);

    assert_eq!(id, 1);
    assert_eq!(data.id, id);
    assert_eq!(loaded, data);
    Ok(())
}

#[test]
fn byte_array_box_rejects_ids_not_handed_out() {
    let mut box_ = ByteArrayBox::open(fresh_basic());
    match box_.put(5, vec![1, 2, 3]) {
        Err(GuiXuError::IllegalId { id, next_id }) => {
            assert_eq!(id, 5);
            assert_eq!(next_id, 1);
        }
        other => panic!("unexpected {:?}", other),
    }
}

#[test]
fn byte_array_box_overwrites_under_explicit_id() -> Result<()> {
    let mut box_ = ByteArrayBox::open(fresh_basic());
    let first = box_.put(0, vec![1, 2, 3])?;
    let second = box_.put(0, vec![4])?;
    assert_eq!((first, second), (1, 2));
    assert_eq!(box_.put(first, vec![9, 9])?, first);
    assert_eq!(box_.get(first)?, vec![9, 9]);
    assert_eq!(box_.get(second)?, vec![4]);
    Ok(())
}

#[test]
fn byte_array_box_remove_then_get_is_not_found() -> Result<()> {
    let mut box_ = ByteArrayBox::open(fresh_basic());
    let id = box_.put(0, b"gone".to_vec())?;
    box_.remove(id)?;
    match box_.get(id) {
        Err(GuiXuError::EntryNotFound(missing)) => assert_eq!(missing, id),
        other => panic!("unexpected {:?}", other),
    }
    Ok(())
}

#[test]
fn byte_array_box_missing_id_is_not_found() {
    let box_ = ByteArrayBox::open(fresh_basic());
    assert!(matches!(box_.get(7), Err(GuiXuError::EntryNotFound(7))));
}

#[test]
fn byte_array_box_all_lists_live_entries_in_id_order() -> Result<()> {
    let mut box_ = ByteArrayBox::open(fresh_basic());
    box_.put(0, vec![1])?;
    let second = box_.put(0, vec![2])?;
    box_.put(0, vec![3])?;
    box_.remove(second)?;
    assert_eq!(box_.all()?, vec![vec![1], vec![3]]);
    Ok(())
}

#[test]
fn byte_array_box_survives_reopen() -> Result<()> {
    let mut box_ = ByteArrayBox::open(fresh_basic());
    let id = box_.put(0, b"kept".to_vec())?;
    let reopened = ByteArrayBox::open(reopen_basic(&box_.basic));
    assert_eq!(reopened.get(id)?, b"kept".to_vec());
    assert_eq!(reopened.basic.next_id, 2);
    Ok(())
}

#[test]
fn byte_array_box_clear_forgets_everything() -> Result<()> {
    let mut box_ = ByteArrayBox::open(fresh_basic());
    let id = box_.put(0, b"x".to_vec())?;
    box_.clear();
    assert!(matches!(box_.get(id), Err(GuiXuError::EntryNotFound(_))));
    Ok(())
}

#[test]
fn byte_array_box_get_info_counts_file_sizes() -> Result<()> {
    let mut box_ = ByteArrayBox::open(fresh_basic());
    let info = box_.get_info();
    assert_eq!(info.data_size, 8);
    assert_eq!(info.index_size, 20);
    box_.put(0, vec![7; 5])?;
    let info = box_.get_info();
    assert_eq!(info.data_size, 40);
    assert_eq!(info.index_size, 192);
    Ok(())
}

#[test]
fn typed_box_all_and_remove() -> Result<()> {
    let mut box_: TypedBox<TestClass> = TypedBox::open(fresh_basic());
    let mut a = TestClass { id: 0, name: "a".to_string(), age: 1 };
    let mut b = TestClass { id: 0, name: "b".to_string(), age: 2 };
    let ida = box_.assign_id(&mut a)?;
    box_.store(ida, &encode(&a))?;
    let idb = box_.assign_id(&mut b)?;
    box_.store(idb, &encode(&b))?;
    assert_eq!((ida, idb), (1, 2));
    let all: Vec<TestClass> = box_.all_bytes()?.iter().map(|bytes| decode(bytes)).collect();
    assert_eq!(all, vec![a.clone(), b.clone()]);
    box_.remove(ida)?;
    assert!(matches!(box_.get_bytes(ida), Err(GuiXuError::EntryNotFound(1))));
    Ok(())
}

#[test]
fn typed_box_rejects_unknown_id() {
    let mut box_: TypedBox<TestClass> = TypedBox::open(fresh_basic());
    let mut data = TestClass { id: 3, name: "c".to_string(), age: 3 };
    assert!(matches!(
        box_.assign_id(&mut data),
        Err(GuiXuError::IllegalId { id: 3, next_id: 1 })
    ));
    assert_eq!(data.id, 3);
}

/// The files a compaction writes into and the working generation it goes on with.
fn compaction_files(basic: &BasicBox) -> (AutoIncreaseFileAccess, AutoIncreaseFileAccess, FileItem) {
    let output_store = AutoIncreaseFileAccess::open(Vec::new(), 0).unwrap();
    let output_index = AutoIncreaseFileAccess::open(Vec::new(), basic.active_index_length()).unwrap();
    let working = FileItem::open(
        AutoIncreaseFileAccess::open(Vec::new(), 12).unwrap(),
        AutoIncreaseFileAccess::open(Vec::new(), 0).unwrap(),
    );
    (output_store, output_index, working)
}

#[test]
fn byte_array_box_compaction_keeps_entries() -> Result<()> {
    let mut box_ = ByteArrayBox::open(fresh_basic());
    let a = box_.put(0, vec![1; 10])?;
    let b = box_.put(0, vec![2; 3])?;
    let c = box_.put(0, vec![3; 7])?;
    box_.put(a, vec![4; 2])?;
    box_.remove(b)?;
    let before_size = box_.get_info().data_size;
    let (store, index, working) = compaction_files(&box_.basic);
    box_.compact(store, index, working)?;
    assert_eq!(box_.basic.file_array.len(), 2);
    assert_eq!(box_.get(a)?, vec![4; 2]);
    assert!(matches!(box_.get(b), Err(GuiXuError::EntryNotFound(_))));
    assert_eq!(box_.get(c)?, vec![3; 7]);
    assert_eq!(box_.basic.meta_data_file.as_ref().unwrap().data, vec![1, 2]);
    let d = box_.put(0, vec![5])?;
    assert_eq!(d, 4);
    assert_eq!(box_.get(d)?, vec![5]);
    let reopened = ByteArrayBox::open(reopen_basic(&box_.basic));
    assert_eq!(reopened.get(a)?, vec![4; 2]);
    assert_eq!(reopened.get(c)?, vec![3; 7]);
    assert_eq!(reopened.get(d)?, vec![5]);
    assert!(before_size > 0);
    Ok(())
}

#[test]
fn byte_array_box_compaction_of_empty_box_does_nothing() -> Result<()> {
    let mut box_ = ByteArrayBox::open(fresh_basic());
    box_.clear();
    let (store, index, working) = (
        AutoIncreaseFileAccess::open(Vec::new(), 0).unwrap(),
        AutoIncreaseFileAccess::open(Vec::new(), 0).unwrap(),
        FileItem::open(
            AutoIncreaseFileAccess::open(Vec::new(), 12).unwrap(),
            AutoIncreaseFileAccess::open(Vec::new(), 0).unwrap(),
        ),
    );
    box_.compact(store, index, working)?;
    assert!(box_.basic.file_array.is_empty());
    Ok(())
}

#[test]
fn growing_file_reopens_from_its_bytes() -> Result<()> {
    let mut file = AutoIncreaseFileAccess::open(Vec::new(), 4)?;
    file.write_all_at(4, &[9; 100])?;
    assert_eq!(file.length(), 104);
    let again = AutoIncreaseFileAccess::open(file.image().clone(), 4)?;
    assert_eq!(again.length(), 104);
    assert_eq!(again.file_size(), file.file_size());
    assert_eq!(again.read_exact_at(4, 100)?, vec![9; 100]);
    assert!(matches!(again.read_exact_at(100, 5), Err(GuiXuError::Corrupt(_))));
    Ok(())
}

#[test]
fn growing_file_grows_eightfold_with_a_footer() -> Result<()> {
    let mut file = AutoIncreaseFileAccess::open(Vec::new(), 0)?;
    assert_eq!(file.file_size(), 8);
    file.write_all_at(0, &[1, 2, 3])?;
    assert_eq!(file.file_size(), 24);
    assert_eq!(bytes_footer(file.image()), 3);
    Ok(())
}

fn bytes_footer(image: &[u8]) -> u64 {
    let n = image.len();
    guixu::byte_ops::bytes_to_u64(&image[n - 8..])
}

#[test]
fn fixed_file_short_read_is_an_io_error() -> Result<()> {
    let file = FixSizeFileAccess::open(vec![7], 2)?;
    assert_eq!(file.read_exact_at(0, 2)?, vec![7, 0]);
    assert!(matches!(file.read_exact_at(1, 2), Err(GuiXuError::Io(_))));
    Ok(())
}

#[test]
fn byte_array_box_second_compaction_keeps_entries() -> Result<()> {
    let mut box_ = ByteArrayBox::open(fresh_basic());
    assert_eq!(box_.put(0, b"a".to_vec())?, 1);
    let (store, index, working) = compaction_files(&box_.basic);
    box_.compact(store, index, working)?;
    let (store, index, working) = compaction_files(&box_.basic);
    box_.compact(store, index, working)?;
    assert_eq!(box_.get(1)?, b"a".to_vec());
    assert_eq!(box_.all()?, vec![b"a".to_vec()]);
    Ok(())
}

#[test]
fn reopen_after_compaction_hands_out_a_fresh_id() -> Result<()> {
    let mut box_ = ByteArrayBox::open(fresh_basic());
    box_.put(0, vec![1])?;
    box_.put(0, vec![2])?;
    let (store, index, working) = compaction_files(&box_.basic);
    box_.compact(store, index, working)?;
    let mut reopened = ByteArrayBox::open(reopen_basic(&box_.basic));
    assert_eq!(reopened.basic.next_id, 3);
    assert_eq!(reopened.put(1, vec![9])?, 1);
    assert_eq!(reopened.put(0, vec![3])?, 3);
    assert_eq!(reopened.get(2)?, vec![2]);
    assert_eq!(reopened.all()?, vec![vec![9], vec![2], vec![3]]);
    Ok(())
}

#[test]
fn ids_never_put_stay_missing_when_the_index_grows() -> Result<()> {
    let mut box_ = ByteArrayBox::open(fresh_basic());
    assert_eq!(box_.put(0, vec![7u8; 24])?, 1);
    box_.remove(100)?;
    assert!(matches!(box_.get(15), Err(GuiXuError::EntryNotFound(15))));
    assert_eq!(box_.get(1)?, vec![7u8; 24]);
    for id in 2..100 {
        assert!(matches!(box_.get(id), Err(GuiXuError::EntryNotFound(_))));
    }
    assert_eq!(box_.all()?, vec![vec![7u8; 24]]);
    Ok(())
}

#[test]
fn reopening_clears_bytes_past_the_length_in_use() -> Result<()> {
    let mut image = vec![5u8; 20];
    image.extend_from_slice(&guixu::byte_ops::u64_to_bytes(4));
    let file = AutoIncreaseFileAccess::open(image, 0)?;
    assert_eq!(file.length(), 4);
    assert_eq!(&file.image()[0..4], &[5, 5, 5, 5]);
    assert!(file.image()[4..20].iter().all(|b| *b == 0));
    Ok(())
}

#[test]
fn merged_index_items_without_an_entry_are_zero() -> Result<()> {
    let mut box_ = ByteArrayBox::open(fresh_basic());
    let a = box_.put(0, vec![1; 4])?;
    let b = box_.put(0, vec![2; 5])?;
    let c = box_.put(0, vec![3; 6])?;
    box_.remove(b)?;
    let (store, index, working) = compaction_files(&box_.basic);
    box_.compact(store, index, working)?;
    let merged = &box_.basic.file_array[1];
    let items = merged.index_file.image();
    assert_eq!(&items[0..12], &[0u8; 12]);
    assert_eq!(&items[(b as usize) * 12..(b as usize) * 12 + 12], &[0u8; 12]);
    let mut expected_a = 0u64.to_be_bytes().to_vec();
    expected_a.extend_from_slice(&4i32.to_be_bytes());
    assert_eq!(&items[(a as usize) * 12..(a as usize) * 12 + 12], expected_a.as_slice());
    let mut expected_c = 4u64.to_be_bytes().to_vec();
    expected_c.extend_from_slice(&6i32.to_be_bytes());
    assert_eq!(&items[(c as usize) * 12..(c as usize) * 12 + 12], expected_c.as_slice());
    assert_eq!(merged.store_file.length(), 10);
    assert_eq!(merged.index_file.length(), 48);
    Ok(())
}

#[test]
fn put_moves_the_store_and_index_on() -> Result<()> {
    let mut box_ = ByteArrayBox::open(fresh_basic());
    let before_store = box_.basic.file_array[0].store_append_position;
    let id = box_.put(0, vec![9; 24])?;
    assert_eq!(id, 1);
    assert_eq!(box_.basic.next_id, 2);
    assert_eq!(box_.basic.file_array[0].store_append_position, before_store + 24);
    assert_eq!(box_.basic.file_array[0].index_file.length(), 24);
    box_.put(1, vec![8; 3])?;
    assert_eq!(box_.basic.next_id, 2);
    assert_eq!(box_.basic.file_array[0].store_append_position, before_store + 27);
    Ok(())
}
