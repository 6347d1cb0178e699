use guixu::basic_box::{BasicBox, FileItem};
use guixu::byte_ops::{
    bytes_to_i32, bytes_to_i32_vec, bytes_to_u64, bytes_to_u64_vec, i32_slice_to_bytes,
    i32_to_bytes, u64_slice_to_bytes, u64_to_bytes,
};
use guixu::error::{GuiXuError, Result};
use guixu::file_access::{AutoIncreaseFileAccess, FixSizeFileAccess};
use guixu::guixu::{
    index_file_name, key_map_file_name, sanitize_type_name, store_file_name, temp_index_file_name,
    temp_store_file_name, GuiXu,
};
use guixu::kv_box::KVBox;
use guixu::kv_key::{parse_dense_numeric_key, parse_dense_numeric_key_bytes, should_store_dense_numeric};
use guixu::kv_value::{VALUE_TYPE_INT, VALUE_TYPE_STRING};

fn fresh_basic() -> BasicBox {
    let mut meta = FixSizeFileAccess::open(Vec::new(), 2).unwrap();
    let nums = BasicBox::working_files(&mut meta).unwrap();
    let mut files = Vec::new();
    for _ in nums {
        let index = AutoIncreaseFileAccess::open(Vec::new(), 12).unwrap();
        let store = AutoIncreaseFileAccess::open(Vec::new(), 0).unwrap();
        files.push(FileItem::open(index, store));
    }
    BasicBox::open(meta, files)
}

fn reopen_basic(basic: &BasicBox) -> BasicBox {
    let meta_bytes = basic.meta_data_file.as_ref().unwrap().data.clone();
    let mut meta = FixSizeFileAccess::open(meta_bytes, 2).unwrap();
    let nums = BasicBox::working_files(&mut meta).unwrap();
    let mut files = Vec::new();
    for (i, _) in nums.iter().enumerate() {
        let item = &basic.file_array[i];
        let index = AutoIncreaseFileAccess::open(item.index_file.image().clone(), 12).unwrap();
        let store = AutoIncreaseFileAccess::open(item.store_file.image().clone(), 0).unwrap();
        files.push(FileItem::open(index, store));
    }
    BasicBox::open(meta, files)
}

fn fresh_kv() -> KVBox {
    let map_file = AutoIncreaseFileAccess::open(Vec::new(), 4).unwrap();
    KVBox::open(fresh_basic(), map_file).unwrap()
}

fn reopen_kv(kv: &KVBox) -> Result<KVBox> {
    let basic = reopen_basic(&kv.basic);
    let map_file = AutoIncreaseFileAccess::open(kv.map_file.as_ref().unwrap().image().clone(), 4)?;
    KVBox::open(basic, map_file)
}

#[test]
fn kv_put_then_get_every_type() -> Result<()> {
    let mut kv = fresh_kv();
    kv.put_bool("b", false)?;
    kv.put_byte("y", 200)?;
    kv.put_int("i", -7)?;
    kv.put_long("l", u64::MAX)?;
    kv.put_float_bits("f", 1.5f32.to_bits())?;
    kv.put_double_bits("d", (-2.25f64).to_bits())?;
    kv.put_string("s", "héllo")?;
    kv.put_byte_array("ba", vec![0, 255, 3])?;
    kv.put_int_array("ia", vec![1, -2, i32::MIN])?;
    kv.put_long_array("la", vec![5, u64::MAX])?;
    kv.put_float_array_bits("fa", vec![0.5f32.to_bits(), 3.0f32.to_bits()])?;
    kv.put_double_array_bits("da", vec![1e10f64.to_bits()])?;

    assert!(!kv.get_bool("b")?);
    assert_eq!(kv.get_byte("y")?, 200);
    assert_eq!(kv.get_int("i")?, -7);
    assert_eq!(kv.get_long("l")?, u64::MAX);
    assert_eq!(f32::from_bits(kv.get_float_bits("f")?), 1.5);
    assert_eq!(f64::from_bits(kv.get_double_bits("d")?), -2.25);
    assert_eq!(kv.get_string("s")?, "héllo");
    assert_eq!(kv.get_byte_array("ba")?, vec![0, 255, 3]);
    assert_eq!(kv.get_int_array("ia")?, vec![1, -2, i32::MIN]);
    assert_eq!(kv.get_long_array("la")?, vec![5, u64::MAX]);
    let fa: Vec<f32> = kv.get_float_array_bits("fa")?.into_iter().map(f32::from_bits).collect();
    assert_eq!(fa, vec![0.5, 3.0]);
    let da: Vec<f64> = kv.get_double_array_bits("da")?.into_iter().map(f64::from_bits).collect();
    assert_eq!(da, vec![1e10]);
    Ok(())
}

#[test]
fn kv_every_type_survives_reopen() -> Result<()> {
    let mut kv = fresh_kv();
    kv.put_bool("b", true)?;
    kv.put_byte("y", 9)?;
    kv.put_int("i", 123456)?;
    kv.put_long("l", 1 << 40)?;
    kv.put_string("s", "text")?;
    kv.put_int_array("ia", vec![3, 4])?;
    kv.put_long_array("42", vec![7])?;
    kv.close()?;
    let again = reopen_kv(&kv)?;
    assert!(again.get_bool("b")?);
    assert_eq!(again.get_byte("y")?, 9);
    assert_eq!(again.get_int("i")?, 123456);
    assert_eq!(again.get_long("l")?, 1 << 40);
    assert_eq!(again.get_string("s")?, "text");
    assert_eq!(again.get_int_array("ia")?, vec![3, 4]);
    assert_eq!(again.get_long_array("42")?, vec![7]);
    Ok(())
}

#[test]
fn kv_missing_key_is_key_not_found() {
    let kv = fresh_kv();
    match kv.get_int("nothing") {
        Err(GuiXuError::KeyNotFound(key)) => assert_eq!(key, "nothing"),
        other => panic!("unexpected {:?}", other),
    }
}

#[test]
fn kv_wrong_type_read_is_type_error() -> Result<()> {
    let mut kv = fresh_kv();
    kv.put_int("n", 1)?;
    match kv.get_string("n") {
        Err(GuiXuError::TypeError { stored, expected }) => {
            assert_eq!(stored, VALUE_TYPE_INT);
            assert_eq!(expected, VALUE_TYPE_STRING);
        }
        other => panic!("unexpected {:?}", other),
    }
    Ok(())
}

#[test]
fn kv_put_of_another_type_is_refused_and_keeps_the_value() -> Result<()> {
    let mut kv = fresh_kv();
    kv.put_int("n", 1)?;
    match kv.put_string("n", "x") {
        Err(GuiXuError::TypeError { stored, expected }) => {
            assert_eq!(stored, VALUE_TYPE_INT);
            assert_eq!(expected, VALUE_TYPE_STRING);
        }
        other => panic!("unexpected {:?}", other),
    }
    assert_eq!(kv.get_int("n")?, 1);
    Ok(())
}

#[test]
fn kv_remove_then_get_is_key_not_found() -> Result<()> {
    let mut kv = fresh_kv();
    kv.put_string("k", "v")?;
    kv.remove("k")?;
    assert!(matches!(kv.get_string("k"), Err(GuiXuError::KeyNotFound(_))));
    kv.remove("never-there")?;
    Ok(())
}

#[test]
fn kv_removed_key_takes_another_type() -> Result<()> {
    let mut kv = fresh_kv();
    kv.put_string("k", "v")?;
    kv.remove("k")?;
    kv.put_int("k", 5)?;
    assert_eq!(kv.get_int("k")?, 5);
    kv.close()?;
    let again = reopen_kv(&kv)?;
    assert_eq!(again.get_int("k")?, 5);
    Ok(())
}

#[test]
fn kv_removal_survives_reopen() -> Result<()> {
    let mut kv = fresh_kv();
    kv.put_string("7", "seven")?;
    kv.put_string("x", "ex")?;
    kv.remove("7")?;
    kv.close()?;
    let again = reopen_kv(&kv)?;
    assert!(matches!(again.get_string("7"), Err(GuiXuError::KeyNotFound(_))));
    assert_eq!(again.get_string("x")?, "ex");
    Ok(())
}

#[test]
fn kv_overwrite_keeps_latest_value() -> Result<()> {
    let mut kv = fresh_kv();
    kv.put_long("n", 1)?;
    kv.put_long("n", 2)?;
    kv.put_long("3", 30)?;
    kv.put_long("3", 31)?;
    assert_eq!(kv.get_long("n")?, 2);
    assert_eq!(kv.get_long("3")?, 31);
    kv.close()?;
    let again = reopen_kv(&kv)?;
    assert_eq!(again.get_long("n")?, 2);
    assert_eq!(again.get_long("3")?, 31);
    Ok(())
}

#[test]
fn kv_close_writes_the_doubled_key_count() -> Result<()> {
    let mut kv = fresh_kv();
    kv.put_int("a", 1)?;
    kv.put_int("1", 2)?;
    kv.put_int("b", 3)?;
    kv.close()?;
    let image = kv.map_file.as_ref().unwrap().image();
    assert_eq!(bytes_to_i32(&image[0..4]), 6);
    Ok(())
}

#[test]
fn kv_empty_map_file_is_corrupt() {
    let map_file = AutoIncreaseFileAccess::open(Vec::new(), 0).unwrap();
    assert!(matches!(KVBox::open(fresh_basic(), map_file), Err(GuiXuError::Corrupt(_))));
}

#[test]
fn kv_cut_short_record_is_corrupt() {
    let mut map_file = AutoIncreaseFileAccess::open(Vec::new(), 4).unwrap();
    map_file.write_all_at(4, &[0, 0, 0, 1, 2]).unwrap();
    assert!(matches!(KVBox::open(fresh_basic(), map_file), Err(GuiXuError::Corrupt(_))));
}

#[test]
fn kv_record_of_missing_entry_fails_to_open() {
    let mut map_file = AutoIncreaseFileAccess::open(Vec::new(), 4).unwrap();
    let mut record = i32_to_bytes(1).to_vec();
    record.push(VALUE_TYPE_INT);
    record.extend_from_slice(&u64_to_bytes(9));
    record.push(b'k');
    map_file.write_all_at(4, &record).unwrap();
    assert!(matches!(KVBox::open(fresh_basic(), map_file), Err(GuiXuError::EntryNotFound(9))));
}

#[test]
fn kv_get_info_adds_the_map_file() -> Result<()> {
    let kv = fresh_kv();
    let info = kv.get_info();
    assert_eq!(info.data_size, 8);
    assert_eq!(info.index_size, 20 + 12);
    Ok(())
}

#[test]
fn kv_clear_forgets_every_key() -> Result<()> {
    let mut kv = fresh_kv();
    kv.put_int("a", 1)?;
    kv.clear();
    assert!(matches!(kv.get_int("a"), Err(GuiXuError::KeyNotFound(_))));
    assert!(kv.map_file.is_none());
    Ok(())
}

#[test]
fn numeric_keys_are_canonical_decimals() {
    assert_eq!(parse_dense_numeric_key("0"), Some(0));
    assert_eq!(parse_dense_numeric_key("1"), Some(1));
    assert_eq!(parse_dense_numeric_key("20000000"), Some(20_000_000));
    assert_eq!(parse_dense_numeric_key("20000001"), None);
    assert_eq!(parse_dense_numeric_key("01"), None);
    assert_eq!(parse_dense_numeric_key(""), None);
    assert_eq!(parse_dense_numeric_key("1a"), None);
    assert_eq!(parse_dense_numeric_key("-1"), None);
    assert_eq!(parse_dense_numeric_key_bytes(b"4096"), Some(4096));
    assert_eq!(parse_dense_numeric_key_bytes(b"99999999999999999999999"), None);
}

#[test]
fn dense_storage_allows_a_gap_of_1024() {
    assert!(should_store_dense_numeric(0, 0));
    assert!(should_store_dense_numeric(0, 1024));
    assert!(!should_store_dense_numeric(0, 1025));
    assert!(should_store_dense_numeric(10, 3));
    assert!(should_store_dense_numeric(10, 1034));
    assert!(!should_store_dense_numeric(10, 1035));
}

#[test]
fn byte_conversions_are_big_endian() {
    assert_eq!(i32_to_bytes(1), [0, 0, 0, 1]);
    assert_eq!(i32_to_bytes(-2), [255, 255, 255, 254]);
    assert_eq!(u64_to_bytes(0x0102030405060708), [1, 2, 3, 4, 5, 6, 7, 8]);
    assert_eq!(bytes_to_i32(&[0x80, 0, 0, 0]), i32::MIN);
    assert_eq!(bytes_to_u64(&[0, 0, 0, 0, 0, 0, 1, 0]), 256);
    assert_eq!(i32_slice_to_bytes(&[1, -1]), vec![0, 0, 0, 1, 255, 255, 255, 255]);
    assert_eq!(u64_slice_to_bytes(&[2]), vec![0, 0, 0, 0, 0, 0, 0, 2]);
    assert_eq!(bytes_to_i32_vec(&[0, 0, 0, 5, 0, 0, 0, 6, 9]), vec![5, 6]);
    assert_eq!(bytes_to_u64_vec(&[0, 0, 0, 0, 0, 0, 0, 3]), vec![3]);
    let values = vec![7, -8, i32::MAX];
    assert_eq!(bytes_to_i32_vec(&i32_slice_to_bytes(&values)), values);
}

#[test]
fn type_names_become_file_names() {
    assert_eq!(sanitize_type_name("my_crate::Data<u8>"), "my_crate__Data_u8_");
    assert_eq!(sanitize_type_name("a.b-C_9"), "a.b-C_9");
    assert_eq!(sanitize_type_name("é"), "_");
}

#[test]
fn box_file_names() {
    assert_eq!(index_file_name("box", 2), "box-index-2");
    assert_eq!(store_file_name("box", 0), "box-0");
    assert_eq!(temp_store_file_name("box"), "box-temp");
    assert_eq!(temp_index_file_name("box"), "box-index-temp");
    assert_eq!(key_map_file_name("settings"), "settings-K2IdMap");
}

#[test]
fn database_keeps_its_path() {
    let db = GuiXu::new("/tmp/data".to_string());
    assert_eq!(db.path(), "/tmp/data");
}

#[test]
fn kv_compaction_keeps_values_across_reopen() -> Result<()> {
    let mut kv = fresh_kv();
    kv.put_string("a", "first")?;
    kv.put_string("a", "second")?;
    kv.put_int("7", 70)?;
    kv.put_string("gone", "x")?;
    kv.remove("gone")?;
    let output_store = AutoIncreaseFileAccess::open(Vec::new(), 0).unwrap();
    let output_index = AutoIncreaseFileAccess::open(Vec::new(), kv.basic.active_index_length()).unwrap();
    let working = FileItem::open(
        AutoIncreaseFileAccess::open(Vec::new(), 12).unwrap(),
        AutoIncreaseFileAccess::open(Vec::new(), 0).unwrap(),
    );
    kv.compact(output_store, output_index, working)?;
    assert_eq!(kv.get_string("a")?, "second");
    kv.close()?;
    let again = reopen_kv(&kv)?;
    assert_eq!(again.get_string("a")?, "second");
    assert_eq!(again.get_int("7")?, 70);
    assert!(matches!(again.get_string("gone"), Err(GuiXuError::KeyNotFound(_))));
    Ok(())
}

#[test]
fn kv_key_that_is_not_utf8_fails_to_open() -> Result<()> {
    let mut basic = fresh_basic();
    let id = basic.check_id_and_get(0)?;
    basic.append_store(id, &i32_to_bytes(5))?;
    let mut map_file = AutoIncreaseFileAccess::open(Vec::new(), 4).unwrap();
    let mut record = i32_to_bytes(2).to_vec();
    record.push(VALUE_TYPE_INT);
    record.extend_from_slice(&u64_to_bytes(id));
    record.extend_from_slice(&[0xff, 0xfe]);
    map_file.write_all_at(4, &record).unwrap();
    assert!(matches!(KVBox::open(basic, map_file), Err(GuiXuError::Corrupt(_))));
    Ok(())
}

#[test]
fn kv_records_written_by_hand_load() -> Result<()> {
    let mut basic = fresh_basic();
    let id = basic.check_id_and_get(0)?;
    basic.append_store(id, &i32_to_bytes(-5))?;
    let mut map_file = AutoIncreaseFileAccess::open(Vec::new(), 4).unwrap();
    let mut record = i32_to_bytes(3).to_vec();
    record.push(VALUE_TYPE_INT);
    record.extend_from_slice(&u64_to_bytes(id));
    record.extend_from_slice(b"key");
    map_file.write_all_at(4, &record).unwrap();
    let kv = KVBox::open(basic, map_file)?;
    assert_eq!(kv.get_int("key")?, -5);
    Ok(())
}

#[test]
fn kv_later_record_of_a_key_wins() -> Result<()> {
    let mut basic = fresh_basic();
    let first = basic.check_id_and_get(0)?;
    basic.append_store(first, &i32_to_bytes(1))?;
    let second = basic.check_id_and_get(0)?;
    basic.append_store(second, &i32_to_bytes(2))?;
    let mut map_file = AutoIncreaseFileAccess::open(Vec::new(), 4).unwrap();
    let mut records = Vec::new();
    for id in [first, second] {
        records.extend_from_slice(&i32_to_bytes(1));
        records.push(VALUE_TYPE_INT);
        records.extend_from_slice(&u64_to_bytes(id));
        records.push(b'k');
    }
    map_file.write_all_at(4, &records).unwrap();
    let kv = KVBox::open(basic, map_file)?;
    assert_eq!(kv.get_int("k")?, 2);
    Ok(())
}

#[test]
fn kv_empty_value_is_kept_in_memory_but_not_on_reopen() -> Result<()> {
    let mut kv = fresh_kv();
    kv.put_string("empty", "")?;
    assert_eq!(kv.get_string("empty")?, "");
    kv.close()?;
    assert!(matches!(reopen_kv(&kv), Err(GuiXuError::EntryNotFound(1))));
    Ok(())
}

#[test]
fn kv_values_survive_several_sessions() -> Result<()> {
    let mut kv = fresh_kv();
    kv.put_int("a", 1)?;
    kv.put_string("12", "twelve")?;
    kv.close()?;
    let mut second = reopen_kv(&kv)?;
    second.put_int("a", 2)?;
    second.put_long("b", 3)?;
    second.remove("12")?;
    second.close()?;
    let third = reopen_kv(&second)?;
    assert_eq!(third.get_int("a")?, 2);
    assert_eq!(third.get_long("b")?, 3);
    assert!(matches!(third.get_string("12"), Err(GuiXuError::KeyNotFound(_))));
    Ok(())
}

#[test]
fn kv_put_after_clear_is_corrupt() -> Result<()> {
    let mut kv = fresh_kv();
    kv.put_int("a", 1)?;
    kv.clear();
    assert!(matches!(kv.put_int("b", 2), Err(GuiXuError::Corrupt(_))));
    Ok(())
}

#[test]
fn kv_refused_write_leaves_the_files_alone() -> Result<()> {
    let mut kv = fresh_kv();
    kv.put_int("age", 18)?;
    let map_before = kv.map_file.as_ref().unwrap().image().clone();
    let store_before = kv.basic.file_array[0].store_file.image().clone();
    assert!(matches!(kv.put_string("age", "x"), Err(GuiXuError::TypeError { .. })));
    assert_eq!(kv.map_file.as_ref().unwrap().image(), &map_before);
    assert_eq!(kv.basic.file_array[0].store_file.image(), &store_before);
    assert_eq!(kv.get_int("age")?, 18);
    Ok(())
}

#[test]
fn kv_short_map_file_is_corrupt() {
    let mut image = vec![0u8; 2];
    image.extend_from_slice(&u64_to_bytes(2));
    let map_file = AutoIncreaseFileAccess::open(image, 4).unwrap();
    assert!(matches!(KVBox::open(fresh_basic(), map_file), Err(GuiXuError::Corrupt(_))));
}

#[test]
fn kv_puts_and_removals_move_the_box_on() -> Result<()> {
    let mut kv = fresh_kv();
    let next = kv.basic.next_id;
    let map_position = kv.map_file_append_position;
    let store_position = kv.basic.file_array[0].store_append_position;
    kv.put_int("ab", 5)?;
    assert_eq!(kv.basic.next_id, next + 1);
    assert_eq!(kv.map_file_append_position, map_position + 13 + 2);
    assert_eq!(kv.basic.file_array[0].store_append_position, store_position + 4);
    kv.put_int("ab", 6)?;
    assert_eq!(kv.basic.next_id, next + 1);
    assert_eq!(kv.map_file_append_position, map_position + 15);
    assert_eq!(kv.basic.file_array[0].store_append_position, store_position + 8);
    kv.remove("ab")?;
    assert_eq!(kv.basic.next_id, next + 1);
    assert_eq!(kv.map_file_append_position, map_position + 15);
    assert_eq!(kv.basic.file_array[0].store_append_position, store_position + 8);
    kv.put_string("ab", "x")?;
    assert_eq!(kv.get_string("ab")?, "x");
    assert_eq!(kv.basic.next_id, next + 1);
    Ok(())
}

#[test]
fn kv_second_removal_changes_nothing() -> Result<()> {
    let mut kv = fresh_kv();
    kv.put_int("k", 1)?;
    kv.put_int("other", 2)?;
    kv.remove("k")?;
    kv.remove("k")?;
    kv.remove("never")?;
    assert!(matches!(kv.get_int("k"), Err(GuiXuError::KeyNotFound(_))));
    assert!(matches!(kv.get_int("never"), Err(GuiXuError::KeyNotFound(_))));
    assert_eq!(kv.get_int("other")?, 2);
    let reopened = reopen_kv(&kv)?;
    assert!(matches!(reopened.get_int("k"), Err(GuiXuError::KeyNotFound(_))));
    assert_eq!(reopened.get_int("other")?, 2);
    Ok(())
}

#[test]
fn decimal_forms_parse_back() {
    for n in [0u64, 1, 9, 10, 99, 100, 1024, 5000, 19_999_999, 20_000_000] {
        assert_eq!(parse_dense_numeric_key(&n.to_string()), Some(n));
    }
    assert_eq!(parse_dense_numeric_key("20000001"), None);
}
