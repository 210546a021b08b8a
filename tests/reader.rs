use lesser::reader::PagedReader;
use memmap::MmapMut;
use std::io::Write;

fn mapped(bytes: &[u8]) -> memmap::Mmap {
    let mut mmap = MmapMut::map_anon(bytes.len()).expect("Anon mmap");
    (&mut mmap[..]).write(bytes).unwrap();
    mmap.make_read_only().unwrap()
}

#[test]
fn test_read_file_columned() {
    let test = b"firsts\nsecond\nthird";
    let mut mmap = MmapMut::map_anon(test.len()).expect("Anon mmap");
    (&mut mmap[..]).write(test).unwrap();
    let mmap = mmap.make_read_only().unwrap();
    let mut paged_reader = PagedReader::new(&mmap);
    let expected_rows = 2;
    let (res, rows_red, cols_red) = paged_reader.read_file_paged(0, 0, expected_rows, 1);
    let expected = "f\n\rs";
    assert_eq!(expected, res);
    assert_eq!(expected_rows as usize, rows_red);
    assert_eq!(1, cols_red);
}

#[test]
fn test_read_half_file() {
    let test = b"firsts\nsecond\nthird";
    let mut mmap = MmapMut::map_anon(test.len()).expect("Anon mmap");
    (&mut mmap[..]).write(test).unwrap();
    let mmap = mmap.make_read_only().unwrap();
    let mut paged_reader = PagedReader::new(&mmap);
    let expected_rows = 2;
    let (res, rows_red, cols_red) = paged_reader.read_file_paged(0, 0, expected_rows, 10);
    let expected = "firsts\n\rsecond";
    assert_eq!(expected, res);
    assert_eq!(expected_rows as usize, rows_red);
    assert_eq!(10, cols_red);
}

#[test]
fn test_read_whole_file() {
    let test = b"firsts\nsecond\nthird";
    let mut mmap = MmapMut::map_anon(test.len()).expect("Anon mmap");
    (&mut mmap[..]).write(test).unwrap();
    let mmap = mmap.make_read_only().unwrap();
    let mut paged_reader = PagedReader::new(&mmap);
    let expected_rows = 3;
    let (res, rows_red, cols_red) = paged_reader.read_file_paged(0, 0, expected_rows, 10);
    let expected = String::from_utf8_lossy(test).replace("\n", "\n\r");
    assert_eq!(expected, res);
    assert_eq!(expected_rows as usize, rows_red);
    assert_eq!(10, cols_red);
}

#[test]
fn reader_test_find_new_lines() {
    let test = b"\nabc";
    let expected = vec![(0, 0), (1, 4)];

    let mut mmap = MmapMut::map_anon(test.len()).expect("Anon mmap");
    (&mut mmap[..]).write(test).unwrap();
    let mmap = mmap.make_read_only().unwrap();
    let mut paged_reader = PagedReader::new(&mmap);
    let res = paged_reader.find_new_lines(10, 0);
    assert_eq!(res, expected);

    let no_newlines = b"";
    let expected = vec![(0, 1)];
    let mut mmap = MmapMut::map_anon(1).expect("Anon mmap");
    (&mut mmap[..]).write(no_newlines).unwrap();
    let mmap = mmap.make_read_only().unwrap();
    let mut paged_reader = PagedReader::new(&mmap);
    let res = paged_reader.find_new_lines(10, 0);
    assert_eq!(res, expected);
}

#[test]
fn test_read_file() {
    let test = b"firsts\nsecond\nthird";
    let mut mmap = MmapMut::map_anon(test.len()).expect("Anon mmap");
    (&mut mmap[..]).write(test).unwrap();
    let mmap = mmap.make_read_only().unwrap();
    let mut paged_reader = PagedReader::new(&mmap);
    let expected_rows = 2;
    let (res, rows_red, cols_red) = paged_reader.read_file_paged(0, 0, expected_rows, 1);
    let expected = "f\n\rs";
    assert_eq!(expected, res);
    assert_eq!(expected_rows as usize, rows_red);
    assert_eq!(1, cols_red);
}

#[test]
fn empty_source_reads_one_empty_line() {
    let mut reader = PagedReader::new(b"");
    assert_eq!(reader.cached_rows(), 1);
    assert_eq!(reader.find_new_lines(10, 0), vec![(0, 1)]);
    let (text, rows_read, cols_read) = reader.read_file_paged(0, 0, 5, 10);
    assert_eq!(text, "");
    assert_eq!(rows_read, 1);
    assert_eq!(cols_read, 0);
}

#[test]
fn rows_past_the_end_read_nothing() {
    let mmap = mapped(b"firsts\nsecond\nthird");
    let mut reader = PagedReader::new(&mmap);
    let (text, rows_read, cols_read) = reader.read_file_paged(3, 0, 2, 10);
    assert_eq!(text, "");
    assert_eq!(rows_read, 0);
    assert_eq!(cols_read, 0);
    let (text, rows_read, _) = reader.read_file_paged(2, 0, 2, 10);
    assert_eq!(text, "third");
    assert_eq!(rows_read, 1);
}

#[test]
fn columns_past_every_line_show_nothing() {
    let mmap = mapped(b"firsts\nsecond\nthird");
    let mut reader = PagedReader::new(&mmap);
    let (text, rows_read, cols_read) = reader.read_file_paged(0, 6, 3, 10);
    assert_eq!(text, "\n\r\n\r");
    assert_eq!(rows_read, 3);
    assert_eq!(cols_read, 0);
    let (text, _, cols_read) = reader.read_file_paged(0, 1000, 2, 10);
    assert_eq!(text, "\n\r");
    assert_eq!(cols_read, 0);
}

#[test]
fn columns_are_clipped_per_line() {
    let mmap = mapped(b"firsts\nsecond\nthird");
    let mut reader = PagedReader::new(&mmap);
    let (text, rows_read, cols_read) = reader.read_file_paged(1, 2, 2, 3);
    assert_eq!(text, "con\n\rird");
    assert_eq!(rows_read, 2);
    assert_eq!(cols_read, 3);
    let (text, _, cols_read) = reader.read_file_paged(0, 5, 3, 3);
    assert_eq!(text, "s\n\rd\n\r");
    assert_eq!(cols_read, 3);
}

#[test]
fn tabs_show_as_single_spaces() {
    let mmap = mapped(b"a\tb\n\tc");
    let mut reader = PagedReader::new(&mmap);
    let (text, rows_read, _) = reader.read_file_paged(0, 0, 2, 10);
    assert_eq!(text, "a b\n\r c");
    assert_eq!(rows_read, 2);
}

#[test]
fn invalid_bytes_are_replaced() {
    let mmap = mapped(&[b'f', 0xff, b'g', b'\n', 0xc3, 0xa9]);
    let mut reader = PagedReader::new(&mmap);
    let (text, rows_read, cols_read) = reader.read_file_paged(0, 0, 2, 10);
    assert_eq!(text, "f\u{FFFD}g\n\r\u{e9}");
    assert_eq!(rows_read, 2);
    assert_eq!(cols_read, 10);
}

#[test]
fn trailing_newline_ends_the_last_line() {
    let mmap = mapped(b"ab\n");
    let mut reader = PagedReader::new(&mmap);
    assert_eq!(reader.find_new_lines(10, 0), vec![(0, 2)]);
    let mmap = mapped(b"\n\n");
    let mut reader = PagedReader::new(&mmap);
    assert_eq!(reader.find_new_lines(10, 0), vec![(0, 0), (1, 1)]);
}

#[test]
fn line_index_only_grows() {
    let mmap = mapped(b"firsts\nsecond\nthird");
    let mut reader = PagedReader::new(&mmap);
    assert_eq!(reader.cached_rows(), 0);
    assert_eq!(reader.find_new_lines(1, 0), vec![(0, 6)]);
    assert_eq!(reader.cached_rows(), 1);
    let _ = reader.read_file_paged(0, 0, 2, 10);
    assert_eq!(reader.cached_rows(), 2);
    let _ = reader.read_file_paged(0, 0, 1, 10);
    assert_eq!(reader.cached_rows(), 2);
    assert_eq!(reader.find_new_lines(10, 0), vec![(0, 6), (7, 13), (14, 19)]);
    assert_eq!(reader.cached_rows(), 3);
    assert_eq!(reader.find_new_lines(2, 1), vec![(7, 13), (14, 19)]);
    assert_eq!(reader.find_new_lines(2, u64::MAX), vec![]);
    assert_eq!(reader.cached_rows(), 3);
}

#[test]
fn empty_source_pages_once() {
    let mut reader = PagedReader::new(b"");
    let (text, rows_read, _) = reader.read_file_paged(1, 0, 5, 10);
    assert_eq!(text, "");
    assert_eq!(rows_read, 0);
}
