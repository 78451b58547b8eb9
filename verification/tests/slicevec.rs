use realpath_ext::errno::Errno;
use realpath_ext::slicevec::SliceVec;

#[test]
fn test_basic() {
    let mut buf = [0; 20];
    let mut buf = SliceVec::empty(&mut buf);

    buf.extend_from_slice(b"abc").unwrap();
    assert_eq!(buf.as_ref(), b"abc");

    buf.insert_from_slice(2, b"def").unwrap();
    assert_eq!(buf.as_ref(), b"abdefc");

    buf.push(b'g').unwrap();
    assert_eq!(buf.as_ref(), b"abdefcg");

    buf.replace(b"hijklmn").unwrap();
    assert_eq!(buf.as_ref(), b"hijklmn");

    buf.remove_range(1..2);
    assert_eq!(buf.as_ref(), b"hjklmn");

    buf.remove_range(2..5);
    assert_eq!(buf.as_ref(), b"hjn");

    buf.clear();
    buf.insert_from_slice(0, b"opq").unwrap();
    assert_eq!(buf.as_ref(), b"opq");

    buf.pop();
    assert_eq!(buf.as_ref(), b"op");
    buf.pop();
    assert_eq!(buf.as_ref(), b"o");
    buf.pop();
    assert_eq!(buf.as_ref(), b"");
}

#[test]
fn test_remove_range() {
    let mut buf = [0; 20];
    let mut buf = SliceVec::empty(&mut buf);

    buf.extend_from_slice(b"abcdefghi").unwrap();

    buf.remove_range(0..2);
    assert_eq!(buf.as_ref(), b"cdefghi");

    buf.remove_range(0..2);
    assert_eq!(buf.as_ref(), b"efghi");

    buf.remove_range(0..2);
    assert_eq!(buf.as_ref(), b"ghi");

    let len = buf.len();
    buf.remove_range(1..len);
    assert_eq!(buf.as_ref(), b"g");

    let len = buf.len();
    buf.remove_range(0..len);
    assert_eq!(buf.as_ref(), b"");
}

#[test]
fn test_overflow() {
    let mut buf = [0; 3];
    let mut buf = SliceVec::empty(&mut buf);

    buf.extend_from_slice(b"abc").unwrap();
    assert_eq!(buf.as_ref(), b"abc");

    assert_eq!(buf.push(b'd').unwrap_err(), Errno::NameTooLong);
    assert_eq!(buf.extend_from_slice(b"d").unwrap_err(), Errno::NameTooLong);
    assert_eq!(
        buf.insert_from_slice(2, b"d").unwrap_err(),
        Errno::NameTooLong
    );

    buf.pop();

    assert_eq!(
        buf.insert_from_slice(2, b"de").unwrap_err(),
        Errno::NameTooLong
    );
    buf.insert_from_slice(2, b"d").unwrap();

    assert_eq!(buf.replace(b"abcd").unwrap_err(), Errno::NameTooLong);
    assert_eq!(buf.as_ref(), b"abd");
    buf.replace(b"efg").unwrap();
    assert_eq!(buf.as_ref(), b"efg");
}

#[test]
fn test_make_parent_path() {
    let mut buf = [0; 20];
    let mut buf = SliceVec::empty(&mut buf);

    buf.replace(b"").unwrap();
    buf.make_parent_path().unwrap();
    assert_eq!(buf.as_ref(), b"..");

    buf.replace(b"abc").unwrap();
    buf.make_parent_path().unwrap();
    assert_eq!(buf.as_ref(), b"");

    buf.replace(b"abc").unwrap();
    buf.make_parent_path().unwrap();
    assert_eq!(buf.as_ref(), b"");

    buf.replace(b"/abc/def").unwrap();
    buf.make_parent_path().unwrap();
    assert_eq!(buf.as_ref(), b"/abc");

    buf.replace(b"/abc").unwrap();
    buf.make_parent_path().unwrap();
    assert_eq!(buf.as_ref(), b"/");

    buf.replace(b"/").unwrap();
    buf.make_parent_path().unwrap();
    assert_eq!(buf.as_ref(), b"/");

    buf.replace(b"//abc/def").unwrap();
    buf.make_parent_path().unwrap();
    assert_eq!(buf.as_ref(), b"//abc");

    buf.replace(b"//abc").unwrap();
    buf.make_parent_path().unwrap();
    assert_eq!(buf.as_ref(), b"//");

    buf.replace(b"//").unwrap();
    buf.make_parent_path().unwrap();
    assert_eq!(buf.as_ref(), b"//");

    buf.replace(b"..").unwrap();
    buf.make_parent_path().unwrap();
    assert_eq!(buf.as_ref(), b"../..");

    buf.replace(b"../..").unwrap();
    buf.make_parent_path().unwrap();
    assert_eq!(buf.as_ref(), b"../../..");
}

#[test]
fn a_vector_starts_empty() {
    let mut region = *b"leftover";
    let mut buf = SliceVec::empty(&mut region);
    assert!(buf.is_empty());
    assert_eq!(buf.len(), 0);
    assert_eq!(buf.capacity(), 8);
    assert_eq!(buf.as_slice(), b"");

    buf.pop();
    assert!(buf.is_empty());
    buf.truncate(3);
    assert!(buf.is_empty());

    let mut buf = SliceVec::empty(&mut []);
    assert_eq!(buf.capacity(), 0);
    assert_eq!(buf.push(0).unwrap_err(), Errno::NameTooLong);
    buf.replace(b"").unwrap();
    buf.extend_from_slice(b"").unwrap();
    buf.insert_from_slice(0, b"").unwrap();
    assert_eq!(buf.make_parent_path().unwrap_err(), Errno::NameTooLong);
}

#[test]
fn the_length_can_be_set_and_cut() {
    let mut region = *b"abcdefgh";
    let mut buf = SliceVec::empty(&mut region);

    buf.set_len(5);
    assert_eq!(buf.as_slice(), b"abcde");
    buf.truncate(7);
    assert_eq!(buf.as_slice(), b"abcde");
    buf.truncate(5);
    assert_eq!(buf.as_slice(), b"abcde");
    buf.truncate(2);
    assert_eq!(buf.as_slice(), b"ab");
    buf.set_len(8);
    assert_eq!(buf.as_slice(), b"abcdefgh");
    buf.truncate(0);
    assert_eq!(buf.as_slice(), b"");
}

#[test]
fn the_bytes_can_be_changed_in_place() {
    let mut region = [0; 8];
    let mut buf = SliceVec::empty(&mut region);
    buf.extend_from_slice(b"abc").unwrap();

    let bytes = buf.as_mut_slice();
    assert_eq!(bytes.len(), 3);
    bytes[1] = b'x';
    assert_eq!(buf.as_slice(), b"axc");
    assert_eq!(buf.buf[3], 0);
}

#[test]
fn an_insert_with_nothing_changes_nothing() {
    let mut region = [0; 4];
    let mut buf = SliceVec::empty(&mut region);
    buf.extend_from_slice(b"abcd").unwrap();

    buf.insert_from_slice(2, b"").unwrap();
    buf.insert_from_slice(9, b"").unwrap();
    assert_eq!(buf.as_ref(), b"abcd");

    buf.remove_range(1..1);
    assert_eq!(buf.as_ref(), b"abcd");
    buf.remove_range(1..3);
    buf.insert_from_slice(0, b"xy").unwrap();
    assert_eq!(buf.as_ref(), b"xyad");
    buf.remove_range(3..4);
    buf.insert_from_slice(3, b"z").unwrap();
    assert_eq!(buf.as_ref(), b"xyaz");
}

#[test]
fn a_parent_may_need_more_room() {
    let mut region = [0; 5];
    let mut buf = SliceVec::empty(&mut region);

    buf.replace(b"..").unwrap();
    buf.make_parent_path().unwrap();
    assert_eq!(buf.as_ref(), b"../..");
    assert_eq!(buf.make_parent_path().unwrap_err(), Errno::NameTooLong);
    assert_eq!(buf.as_ref(), b"../..");

    buf.replace(b"a/..").unwrap();
    assert_eq!(buf.make_parent_path().unwrap_err(), Errno::NameTooLong);
    buf.replace(b"/..").unwrap();
    assert_eq!(buf.make_parent_path().unwrap_err(), Errno::NameTooLong);

    buf.replace(b"a..").unwrap();
    buf.make_parent_path().unwrap();
    assert_eq!(buf.as_ref(), b"");
    buf.replace(b"/a/..").unwrap();
    assert_eq!(buf.make_parent_path().unwrap_err(), Errno::NameTooLong);
    buf.replace(b"a/b/c").unwrap();
    buf.make_parent_path().unwrap();
    assert_eq!(buf.as_ref(), b"a/b");
    buf.replace(b"/a//b").unwrap();
    buf.make_parent_path().unwrap();
    assert_eq!(buf.as_ref(), b"/a/");
    buf.replace(b"a/").unwrap();
    buf.make_parent_path().unwrap();
    assert_eq!(buf.as_ref(), b"a");
    buf.replace(b"///a").unwrap();
    buf.make_parent_path().unwrap();
    assert_eq!(buf.as_ref(), b"//");
}
