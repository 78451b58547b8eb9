use realpath_ext::errno::Errno;
use realpath_ext::{count_leading_dotdot, normpath_raw};

#[test]
fn test_count_leading_dotdot() {
    assert_eq!(count_leading_dotdot(b""), 0);
    assert_eq!(count_leading_dotdot(b".."), 0);
    assert_eq!(count_leading_dotdot(b"../a"), 1);
    assert_eq!(count_leading_dotdot(b"../../a"), 2);
    assert_eq!(count_leading_dotdot(b"../a/../b"), 1);
}

#[test]
fn test_normpath_raw() {
    let mut buf = [0; 100];

    let n = normpath_raw(b"/", &mut buf).unwrap();
    assert_eq!(&buf[..n], b"/");

    let n = normpath_raw(b".", &mut buf).unwrap();
    assert_eq!(&buf[..n], b".");

    let n = normpath_raw(b"a", &mut buf).unwrap();
    assert_eq!(&buf[..n], b"a");

    let n = normpath_raw(b"a/..", &mut buf).unwrap();
    assert_eq!(&buf[..n], b".");

    let n = normpath_raw(b"//a/./b/../c/", &mut buf).unwrap();
    assert_eq!(&buf[..n], b"//a/c");

    assert_eq!(normpath_raw(b"", &mut buf).unwrap_err(), Errno::NoEntry);
    assert_eq!(
        normpath_raw(b"\0", &mut buf).unwrap_err(),
        Errno::InvalidArgument
    );
}

fn normalized(path: &[u8]) -> Vec<u8> {
    let mut buf = [0; 64];
    let n = normpath_raw(path, &mut buf).unwrap();
    buf[..n].to_vec()
}

#[test]
fn dots_and_slashes_disappear() {
    assert_eq!(normalized(b"/a/b/./c/../"), b"/a/b");
    assert_eq!(normalized(b"a/.."), b".");
    assert_eq!(normalized(b"./"), b".");
    assert_eq!(normalized(b"///"), b"/");
    assert_eq!(normalized(b"//"), b"//");
    assert_eq!(normalized(b"////a////b////"), b"/a/b");
    assert_eq!(normalized(b"//a//b//"), b"//a/b");
    assert_eq!(normalized(b"a/./b/./c"), b"a/b/c");
    assert_eq!(normalized(b"..."), b"...");
    assert_eq!(normalized(b".../..a/a.."), b".../..a/a..");
}

#[test]
fn parents_are_taken_as_far_as_the_path_goes() {
    assert_eq!(normalized(b".."), b"..");
    assert_eq!(normalized(b"../.."), b"../..");
    assert_eq!(normalized(b"a/../.."), b"..");
    assert_eq!(normalized(b"a/b/../../../c"), b"../c");
    assert_eq!(normalized(b"../a/.."), b"..");
    assert_eq!(normalized(b"../a/../.."), b"../..");
    assert_eq!(normalized(b"/.."), b"/");
    assert_eq!(normalized(b"/../../a"), b"/a");
    assert_eq!(normalized(b"//.."), b"//");
    assert_eq!(normalized(b"//a/../.."), b"//");
    assert_eq!(normalized(b"/a/b/../../.."), b"/");
}

#[test]
fn a_normal_form_stays_as_it_is() {
    for path in [
        &b"/a/b/./c/../"[..],
        b"a/..",
        b"../../a/../b//",
        b"//x/./y",
        b"///x/..//..",
        b"..//..",
        b".",
    ] {
        let once = normalized(path);
        assert_eq!(normalized(&once), once);
    }
}

#[test]
fn a_region_of_the_right_size_is_enough_without_parents() {
    for (path, expected) in [
        (&b"/"[..], &b"/"[..]),
        (b"//", b"//"),
        (b".", b"."),
        (b"./a//b/", b"a/b"),
        (b"///usr/./bin/.", b"/usr/bin"),
    ] {
        let mut buf = [0; 16];
        let len = expected.len();
        assert_eq!(normpath_raw(path, &mut buf[..len]), Ok(len));
        assert_eq!(&buf[..len], expected);
        assert_eq!(
            normpath_raw(path, &mut buf[..len - 1]),
            Err(Errno::NameTooLong)
        );
    }
}

#[test]
fn a_parent_needs_room_for_what_it_takes_away() {
    let mut buf = [0; 16];
    assert_eq!(normpath_raw(b"aaaa/..", &mut buf[..4]), Ok(1));
    assert_eq!(&buf[..1], b".");
    assert_eq!(
        normpath_raw(b"aaaa/..", &mut buf[..3]),
        Err(Errno::NameTooLong)
    );
    assert_eq!(normpath_raw(b"/a/bbb/../c", &mut buf[..6]), Ok(4));
    assert_eq!(&buf[..4], b"/a/c");
    assert_eq!(
        normpath_raw(b"/a/bbb/../c", &mut buf[..5]),
        Err(Errno::NameTooLong)
    );
}

#[test]
fn a_region_is_not_needed_to_refuse_a_path() {
    assert_eq!(normpath_raw(b"", &mut []), Err(Errno::NoEntry));
    assert_eq!(normpath_raw(b"a\0", &mut []), Err(Errno::InvalidArgument));
    assert_eq!(normpath_raw(b".", &mut []), Err(Errno::NameTooLong));
}

#[test]
fn leading_parents_are_counted_in_threes() {
    assert_eq!(count_leading_dotdot(b"../"), 1);
    assert_eq!(count_leading_dotdot(b"../.."), 1);
    assert_eq!(count_leading_dotdot(b"../../"), 2);
    assert_eq!(count_leading_dotdot(b"../../../../x"), 4);
    assert_eq!(count_leading_dotdot(b"/../"), 0);
    assert_eq!(count_leading_dotdot(b"..a/../"), 0);
    assert_eq!(count_leading_dotdot(b"..//../"), 1);
}
