//! Behaviour of the file object on concrete inputs.

use hdf5_rust::model::{DTypeKind, DatasetRec, FileModel};
use hdf5_rust::{
    dataset_dtype, dataset_shape, fixture_chunked_dataset, list_datasets, list_groups, HDF5DType,
    HDF5Error, Hdf5File, HDF5_CREATED_ATTR, HDF5_MAX_DIMS, HDF5_SIGNATURE, HDF5_WRITER_VERSION,
    HDF5_WRITER_VERSION_ATTR,
};

fn reopen(f: &Hdf5File) -> Hdf5File {
    let bytes = f.to_bytes().expect("encode");
    Hdf5File::from_bytes(&bytes).expect("decode")
}

#[test]
fn integer_lanes_survive_the_file() {
    let mut f = Hdf5File::create();
    f.write_i8("i8", &[3], &[-1, 0, 127]).unwrap();
    f.write_i16("i16", &[2], &[-2, 300]).unwrap();
    f.write_i32("i32", &[2, 2], &[-3, 4, i32::MIN, i32::MAX]).unwrap();
    f.write_i64("i64", &[1], &[-5]).unwrap();
    f.write_u8("u8", &[2], &[0, 255]).unwrap();
    f.write_u16("u16", &[2], &[1, 65535]).unwrap();
    f.write_u32("u32", &[1], &[0xdead_beef]).unwrap();
    f.write_u64("u64", &[2], &[0, u64::MAX]).unwrap();
    let g = reopen(&f);
    assert_eq!(g.read_i8("i8").unwrap(), (vec![3], vec![-1, 0, 127]));
    assert_eq!(g.read_i16("i16").unwrap(), (vec![2], vec![-2, 300]));
    assert_eq!(g.read_i32("i32").unwrap(), (vec![2, 2], vec![-3, 4, i32::MIN, i32::MAX]));
    assert_eq!(g.read_i64("i64").unwrap(), (vec![1], vec![-5]));
    assert_eq!(g.read_u8("u8").unwrap(), (vec![2], vec![0, 255]));
    assert_eq!(g.read_u16("u16").unwrap(), (vec![2], vec![1, 65535]));
    assert_eq!(g.read_u32("u32").unwrap(), (vec![1], vec![0xdead_beef]));
    assert_eq!(g.read_u64("u64").unwrap(), (vec![2], vec![0, u64::MAX]));
    assert_eq!(g.dataset_dtype("i32").unwrap(), HDF5DType::Int32);
    assert_eq!(g.dataset_dtype("u8").unwrap(), HDF5DType::UInt8);
}

#[test]
fn scalar_and_rank_three() {
    let mut f = Hdf5File::create();
    f.write_f64("s", &[], &[0x4000_0000_0000_0000]).unwrap();
    let cube: Vec<u64> = (0..24).collect();
    f.write_u64("cube", &[2, 3, 4], &cube).unwrap();
    let g = reopen(&f);
    assert_eq!(g.read_f64("s").unwrap(), (vec![], vec![0x4000_0000_0000_0000]));
    assert_eq!(g.read_u64("cube").unwrap(), (vec![2, 3, 4], cube));
}

#[test]
fn write_errors() {
    let mut f = Hdf5File::create();
    let shape = vec![1usize; HDF5_MAX_DIMS + 1];
    assert_eq!(f.write_f64("x", &shape, &[1]), Err(HDF5Error::RankNotSupported));
    assert_eq!(f.write_f64("x", &[2, 2], &[1, 2, 3]), Err(HDF5Error::ShapeMismatch));
    assert_eq!(f.write_f64("x", &[usize::MAX, 2], &[1]), Err(HDF5Error::ShapeMismatch));
    assert_eq!(f.write_f64("a/../b", &[1], &[1]), Err(HDF5Error::InvalidHeader));
    assert_eq!(f.write_f64("", &[1], &[1]), Err(HDF5Error::InvalidHeader));
    let long = "n".repeat(70_000);
    assert_eq!(f.write_f64(&long, &[1], &[1]), Err(HDF5Error::NameTooLong));
    assert!(f.list_datasets().is_empty());
}

#[test]
fn read_errors() {
    let mut f = Hdf5File::create();
    f.write_f64("d", &[2], &[1, 2]).unwrap();
    assert_eq!(f.read_f32("d"), Err(HDF5Error::TypeMismatch));
    assert_eq!(f.read_opaque("d"), Err(HDF5Error::TypeMismatch));
    assert_eq!(f.read_u64("d"), Err(HDF5Error::TypeMismatch));
    assert_eq!(f.read_f64("nope"), Err(HDF5Error::NotFound("nope".to_string())));
    assert_eq!(f.read_f64("/x//y/"), Err(HDF5Error::NotFound("x/y".to_string())));
    assert_eq!(f.read_f64_slice("d", 2, 1), Err(HDF5Error::ShapeMismatch));
    assert_eq!(f.read_f64_slice("d", 0, 3), Err(HDF5Error::ShapeMismatch));
    assert_eq!(f.read_f64_slice("d", 1, 2).unwrap(), (vec![1], vec![2]));
}

#[test]
fn paths_are_normalized() {
    let mut f = Hdf5File::create();
    f.create_group("/g/").unwrap();
    f.write_f64("//g/./d", &[1], &[7]).unwrap();
    assert_eq!(f.read_f64("g/d").unwrap(), (vec![1], vec![7]));
    assert_eq!(f.list_datasets(), vec!["g/d".to_string()]);
    assert_eq!(FileModel::normalize("//a/./b/").unwrap(), "a/b");
    assert_eq!(
        FileModel::parent_name("a/b/c").unwrap(),
        ("a/b".to_string(), "c".to_string())
    );
    assert_eq!(FileModel::parent_name("c").unwrap(), (String::new(), "c".to_string()));
}

#[test]
fn groups_need_a_parent() {
    let mut f = Hdf5File::create();
    assert_eq!(f.create_group("a/b"), Err(HDF5Error::NotFound("a".to_string())));
    f.create_group("a").unwrap();
    f.create_group("a/b").unwrap();
    f.create_group("a/b").unwrap();
    f.write_f64("d", &[1], &[1]).unwrap();
    assert_eq!(f.create_group("d"), Err(HDF5Error::InvalidHeader));
    let g = reopen(&f);
    assert_eq!(g.list_groups(), vec!["/", "a", "a/b"]);
}

#[test]
fn root_is_listed_in_sorted_place() {
    let mut f = Hdf5File::create();
    f.create_group("b").unwrap();
    f.create_group("-a").unwrap();
    assert_eq!(f.list_groups(), vec!["-a", "/", "b"]);
    assert_eq!(list_groups(&f), vec!["-a", "/", "b"]);
}

#[test]
fn write_creates_missing_parent_one_level() {
    let mut f = Hdf5File::create();
    f.write_f64("p/d", &[1], &[1]).unwrap();
    assert_eq!(f.list_groups(), vec!["/", "p"]);
    assert_eq!(f.write_f64("q/r/d", &[1], &[1]), Err(HDF5Error::NotFound("q".to_string())));
}

#[test]
fn attributes_written_and_replaced() {
    let mut f = Hdf5File::create();
    f.write_f64("d", &[1], &[1]).unwrap();
    let attrs = f.list_attrs("d").unwrap();
    assert_eq!(attrs.len(), 2);
    assert_eq!(attrs[0], (HDF5_WRITER_VERSION_ATTR.to_string(), HDF5_WRITER_VERSION.to_string()));
    assert_eq!(attrs[1].0, HDF5_CREATED_ATTR);
    assert!(!attrs[1].1.is_empty());
    assert!(attrs[1].1.bytes().all(|b| b.is_ascii_digit()));
    assert!(attrs[1].1 != "0");
    f.write_attr_str("d", "units", "kelvin").unwrap();
    f.write_attr_str("d", "units", "celsius").unwrap();
    let g = reopen(&f);
    assert_eq!(g.read_attr_str("d", "units").unwrap(), "celsius");
    assert_eq!(g.list_attrs("d").unwrap().len(), 3);
    assert_eq!(g.read_attr_str("d", "none"), Err(HDF5Error::NotFound("none".to_string())));
    let long = "v".repeat(70_000);
    assert_eq!(f.write_attr_str("d", "x", &long), Err(HDF5Error::NameTooLong));
    assert_eq!(f.write_attr_str("e", "x", "y"), Err(HDF5Error::NotFound("e".to_string())));
}

#[test]
fn appends_of_each_kind() {
    let mut f = Hdf5File::create();
    f.write_f32("f", &[2], &[1, 2]).unwrap();
    f.append_f32("f", &[1], &[3]).unwrap();
    assert_eq!(f.read_f32("f").unwrap(), (vec![3], vec![1, 2, 3]));
    f.write_i32("i", &[1, 2], &[1, 2]).unwrap();
    f.append_i32("i", &[2, 2], &[3, 4, 5, 6]).unwrap();
    assert_eq!(f.read_i32("i").unwrap(), (vec![3, 2], vec![1, 2, 3, 4, 5, 6]));
    f.write_u64("u", &[1], &[9]).unwrap();
    f.append_u64("u", &[1], &[10]).unwrap();
    assert_eq!(f.read_u64("u").unwrap(), (vec![2], vec![9, 10]));
    f.write_opaque("o", &[1], 2, &[1, 2]).unwrap();
    f.append_opaque("o", &[2], &[3, 4, 5, 6]).unwrap();
    assert_eq!(f.read_opaque("o").unwrap(), (vec![3], 2, vec![1, 2, 3, 4, 5, 6]));
    assert_eq!(f.append_opaque("o", &[1], &[1]), Err(HDF5Error::ShapeMismatch));
    assert_eq!(f.append_f64("f", &[1], &[1]), Err(HDF5Error::TypeMismatch));
    assert_eq!(f.append_f64("zz", &[1], &[1]), Err(HDF5Error::NotFound("zz".to_string())));
    f.write_f64("s", &[], &[1]).unwrap();
    assert_eq!(f.append_f64("s", &[], &[1]), Err(HDF5Error::ShapeMismatch));
}

#[test]
fn chunked_fixture_reports_shape_and_type() {
    let bytes = fixture_chunked_dataset().unwrap();
    assert_eq!(&bytes[..8], &HDF5_SIGNATURE);
    let f = Hdf5File::from_bytes(&bytes).unwrap();
    assert_eq!(dataset_shape(&f, "data").unwrap(), vec![1]);
    assert_eq!(dataset_dtype(&f, "data").unwrap(), HDF5DType::Float64);
    assert_eq!(list_datasets(&f), vec!["data"]);
    assert_eq!(f.read_opaque("data"), Err(HDF5Error::ChunkedNotSupported));
    let mut g = f;
    assert_eq!(g.append_f64("data", &[1], &[1]), Err(HDF5Error::ChunkedNotSupported));
    assert_eq!(g.to_bytes(), Err(HDF5Error::ChunkedNotSupported));
}

#[test]
fn image_layout() {
    let f = Hdf5File::create();
    let bytes = f.to_bytes().unwrap();
    assert_eq!(&bytes[..8], &HDF5_SIGNATURE);
    assert_eq!(bytes[8], 2);
    let eof = u64::from_le_bytes(bytes[28..36].try_into().unwrap());
    assert_eq!(eof as usize, bytes.len());
    let root = u64::from_le_bytes(bytes[36..44].try_into().unwrap());
    assert_eq!(root, 48);
    assert_eq!(&bytes[48..52], b"OHDR");
    let g = Hdf5File::from_bytes(&bytes).unwrap();
    assert_eq!(g.list_groups(), vec!["/"]);
    assert!(g.list_datasets().is_empty());
}

#[test]
fn corrupted_images_fail_cleanly() {
    let mut f = Hdf5File::create();
    f.write_f64("d", &[2], &[1, 2]).unwrap();
    let bytes = f.to_bytes().unwrap();
    assert_eq!(Hdf5File::from_bytes(&bytes[..40]).unwrap_err(), HDF5Error::Truncated);
    let mut bad = bytes.clone();
    bad[20] ^= 0xff;
    assert_eq!(Hdf5File::from_bytes(&bad).unwrap_err(), HDF5Error::InvalidHeader);
    assert_eq!(Hdf5File::from_bytes(&[]).unwrap_err(), HDF5Error::InvalidSignature);
}

#[test]
fn error_messages() {
    assert_eq!(HDF5Error::InvalidSignature.message(), "invalid HDF5 signature");
    assert_eq!(HDF5Error::UnsupportedVersion(7).message(), "unsupported HDF5 version 7");
    assert_eq!(HDF5Error::UnsupportedVersion(255).message(), "unsupported HDF5 version 255");
    assert_eq!(
        HDF5Error::NotFound("a/b".to_string()).message(),
        "HDF5 path not found: a/b"
    );
    assert_eq!(HDF5Error::Io("disk".to_string()).message(), "HDF5 I/O error: disk");
}

#[test]
fn default_and_create_file_are_empty() {
    let d = Hdf5File::default();
    assert_eq!(d.list_groups(), vec!["/"]);
    let c = Hdf5File::create_file("unused.h5").unwrap();
    assert!(c.list_datasets().is_empty());
}

#[test]
fn flat_file_reads_back_unchanged() {
    let mut f = Hdf5File::create();
    f.write_u16("b", &[2], &[7, 8]).unwrap();
    f.write_f64("a", &[1, 2], &[0x3FF0_0000_0000_0000, 0x4000_0000_0000_0000]).unwrap();
    f.write_opaque("c", &[3], 2, &[1, 2, 3, 4, 5, 6]).unwrap();
    f.write_attr_str("a", "units", "metres").unwrap();
    let g = reopen(&f);
    assert_eq!(list_datasets(&g), vec!["a".to_string(), "b".to_string(), "c".to_string()]);
    assert_eq!(list_groups(&g), vec!["/".to_string()]);
    assert_eq!(g.read_u16("b").unwrap(), (vec![2], vec![7, 8]));
    assert_eq!(g.read_f64("a").unwrap(), f.read_f64("a").unwrap());
    assert_eq!(g.read_opaque("c").unwrap(), (vec![3], 2, vec![1, 2, 3, 4, 5, 6]));
    assert_eq!(g.list_attrs("a").unwrap(), f.list_attrs("a").unwrap());
    assert_eq!(g.read_attr_str("a", "units").unwrap(), "metres");
    assert_eq!(g.to_bytes().unwrap(), f.to_bytes().unwrap());
}

#[test]
fn clone_is_an_equal_copy() {
    let mut f = Hdf5File::create();
    f.create_group("g").unwrap();
    f.write_i32("g/x", &[2], &[-1, 1]).unwrap();
    let mut c = f.clone();
    assert_eq!(c.read_i32("g/x").unwrap(), (vec![2], vec![-1, 1]));
    assert_eq!(c.to_bytes().unwrap(), f.to_bytes().unwrap());
    c.write_i32("g/x", &[1], &[5]).unwrap();
    assert_eq!(f.read_i32("g/x").unwrap(), (vec![2], vec![-1, 1]));
    assert_eq!(c.read_i32("g/x").unwrap(), (vec![1], vec![5]));
}

#[test]
fn nested_file_reads_back_unchanged() {
    let mut f = Hdf5File::create();
    f.create_group("a").unwrap();
    f.create_group("a/b").unwrap();
    f.write_u8("a/b/c", &[2], &[9, 8]).unwrap();
    f.write_i64("a/d", &[1], &[-7]).unwrap();
    f.write_u32("e", &[1], &[5]).unwrap();
    f.write_attr_str("a/b/c", "note", "deep").unwrap();
    let g = reopen(&f);
    assert_eq!(list_groups(&g), list_groups(&f));
    assert_eq!(list_datasets(&g), list_datasets(&f));
    assert_eq!(g.read_u8("a/b/c").unwrap(), (vec![2], vec![9, 8]));
    assert_eq!(g.read_i64("a/d").unwrap(), (vec![1], vec![-7]));
    assert_eq!(g.read_attr_str("a/b/c", "note").unwrap(), "deep");
    assert_eq!(g.to_bytes().unwrap(), f.to_bytes().unwrap());
}

#[test]
fn normal_forms_are_fixed_points() {
    for p in ["//a/./b/", "x", "", "/", "a//b//c", "./q/./"] {
        let n = FileModel::normalize(p).unwrap();
        assert_eq!(FileModel::normalize(&n).unwrap(), n);
    }
    assert_eq!(FileModel::normalize("a/../b").unwrap_err(), HDF5Error::InvalidHeader);
}

#[test]
fn dataset_over_group_with_children_drops_them_on_reopen() {
    let mut f = Hdf5File::create();
    f.create_group("a").unwrap();
    f.write_u8("a/x", &[1], &[1]).unwrap();
    f.write_u8("a", &[1], &[2]).unwrap();
    assert_eq!(list_datasets(&f), vec!["a".to_string(), "a/x".to_string()]);
    let g = reopen(&f);
    assert_eq!(list_datasets(&g), vec!["a".to_string()]);
    assert_eq!(g.read_u8("a").unwrap(), (vec![1], vec![2]));
}

#[test]
fn soft_and_external_links_give_no_address() {
    let soft = [1u8, 8, 1, 1, b'x', 6, 0, b'a', b'b', b'c', b'd', b'e', b'f'];
    assert!(matches!(hdf5_rust::messages::parse_link(&soft, 8), Err(HDF5Error::InvalidHeader)));
    let external = [1u8, 8, 64, 1, b'x', 4, 0, 0, b'f', 0, b'o', 0];
    assert!(matches!(hdf5_rust::messages::parse_link(&external, 8), Err(HDF5Error::InvalidHeader)));
    let hard_typed = [1u8, 8, 0, 1, b'x', 9, 0, 0, 0, 0, 0, 0, 0];
    let l = hdf5_rust::messages::parse_link(&hard_typed, 8).unwrap();
    assert_eq!(l.name, "x");
    assert_eq!(l.ohdr, 9);
}

#[test]
fn graph_without_root_is_invalid_header() {
    let m = FileModel { groups: vec![], datasets: vec![] };
    assert_eq!(hdf5_rust::encode::encode(&m), Err(HDF5Error::InvalidHeader));
}

#[test]
fn superblock_fields_of_written_image() {
    let mut f = Hdf5File::create();
    f.write_u8("x", &[3], &[1, 2, 3]).unwrap();
    let b = f.to_bytes().unwrap();
    assert_eq!(&b[..8], &HDF5_SIGNATURE);
    assert_eq!(&b[8..11], &[2u8, 8, 8]);
    let mut eof = [0u8; 8];
    eof.copy_from_slice(&b[28..36]);
    assert_eq!(u64::from_le_bytes(eof), b.len() as u64);
    assert_eq!(f.to_bytes().unwrap(), b);
}

#[test]
fn slice_rows_out_of_range_are_shape_mismatch() {
    let mut f = Hdf5File::create();
    f.write_f64("d", &[2, 1], &[1, 2]).unwrap();
    assert_eq!(f.read_f64_slice("d", 1, 3), Err(HDF5Error::ShapeMismatch));
    assert_eq!(f.read_f64_slice("d", 1, 2).unwrap(), (vec![1, 1], vec![2]));
}

#[test]
fn model_without_root_still_lists_and_stores() {
    let mut m = FileModel { groups: vec![], datasets: vec![] };
    assert!(m.list_groups().is_empty());
    assert!(m.list_datasets().is_empty());
    let rec = DatasetRec {
        shape: vec![1],
        kind: DTypeKind::UInt8,
        data: vec![7],
        attrs: vec![],
        chunked: false,
        filtered: false,
    };
    assert_eq!(m.put_dataset("x", rec), Ok(()));
    assert_eq!(m.list_datasets(), vec!["x".to_string()]);
    assert!(m.list_groups().is_empty());
    assert_eq!(m.create_group("a"), Err(HDF5Error::NotFound(String::new())));
    assert_eq!(m.list_datasets(), vec!["x".to_string()]);
}

#[test]
fn normal_forms_of_paths() {
    assert_eq!(FileModel::normalize("/a//./b/").unwrap(), "a/b");
    assert_eq!(FileModel::normalize("/").unwrap(), "");
    assert_eq!(FileModel::normalize("").unwrap(), "");
    assert_eq!(FileModel::normalize("a/../b"), Err(HDF5Error::InvalidHeader));
    let long = format!("g/{}", "n".repeat(65536));
    assert_eq!(FileModel::normalize(&long), Err(HDF5Error::NameTooLong));
    let ok = format!("g/{}", "n".repeat(65535));
    assert_eq!(FileModel::normalize(&ok).unwrap(), ok);
    let n = FileModel::normalize("//x/./y//z/").unwrap();
    assert_eq!(FileModel::normalize(&n).unwrap(), n);
    assert!(!n.starts_with('/') && !n.ends_with('/'));
}

fn rec_with(chunked: bool, filtered: bool) -> DatasetRec {
    DatasetRec {
        shape: vec![2],
        kind: DTypeKind::UInt8,
        data: vec![1, 2],
        attrs: vec![],
        chunked,
        filtered,
    }
}

#[test]
fn first_refused_dataset_names_the_error() {
    let root = (Vec::new(), vec![b"a".to_vec(), b"b".to_vec()]);
    let m = FileModel {
        groups: vec![root.clone()],
        datasets: vec![(b"a".to_vec(), rec_with(true, false)), (b"b".to_vec(), rec_with(false, true))],
    };
    assert_eq!(hdf5_rust::encode::encode(&m), Err(HDF5Error::ChunkedNotSupported));
    let m = FileModel {
        groups: vec![root.clone()],
        datasets: vec![(b"a".to_vec(), rec_with(true, true)), (b"b".to_vec(), rec_with(true, false))],
    };
    assert_eq!(hdf5_rust::encode::encode(&m), Err(HDF5Error::FilteredNotSupported));
    let m = FileModel {
        groups: vec![root],
        datasets: vec![(b"a".to_vec(), rec_with(false, false)), (b"b".to_vec(), rec_with(false, false))],
    };
    assert!(hdf5_rust::encode::encode(&m).is_ok());
}

#[test]
fn write_lane_count_and_sorted_listing() {
    let mut f = Hdf5File::create();
    f.write_u16("m", &[2], &[1, 2]).unwrap();
    assert_eq!(f.write_u16("b", &[3], &[1, 2]), Err(HDF5Error::ShapeMismatch));
    assert_eq!(f.list_datasets(), vec!["m".to_string()]);
    f.write_u16("b", &[2, 1], &[5, 6]).unwrap();
    f.write_u16("z", &[], &[9]).unwrap();
    assert_eq!(f.list_datasets(), vec!["b".to_string(), "m".to_string(), "z".to_string()]);
    assert_eq!(f.read_u16("m").unwrap(), (vec![2], vec![1, 2]));
    f.write_u16("m", &[1], &[4]).unwrap();
    assert_eq!(f.read_u16("m").unwrap(), (vec![1], vec![4]));
    assert_eq!(f.list_datasets(), vec!["b".to_string(), "m".to_string(), "z".to_string()]);
}
