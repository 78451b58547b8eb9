use realpath_ext::errno::Errno;
use realpath_ext::slicevec::SliceVec;
use realpath_ext::util::{
    getcwd, strip_leading_slashes, ComponentIter, ComponentStack, SymlinkCounter,
    DEFAULT_SYMLOOP_MAX,
};

#[test]
fn test_strip_leading_slashes() {
    assert_eq!(strip_leading_slashes(b""), b"");
    assert_eq!(strip_leading_slashes(b"/"), b"");
    assert_eq!(strip_leading_slashes(b"//"), b"");

    assert_eq!(strip_leading_slashes(b"abc"), b"abc");
    assert_eq!(strip_leading_slashes(b"abc/"), b"abc/");
    assert_eq!(strip_leading_slashes(b"abc/def"), b"abc/def");

    assert_eq!(strip_leading_slashes(b"/abc"), b"abc");
    assert_eq!(strip_leading_slashes(b"/abc/"), b"abc/");
    assert_eq!(strip_leading_slashes(b"/abc/def/"), b"abc/def/");
    assert_eq!(strip_leading_slashes(b"//abc/def/"), b"abc/def/");
}

#[test]
fn test_component_stack() {
    let mut buf = [0; 100];
    let mut stack = ComponentStack::new(&mut buf);

    assert_eq!(stack.next(), None);

    let data = b"pqr/\0mno\0/jkl\0ghi/\0///abc/./def/\0//\0/\0.";
    stack.i = stack.buf.len() - data.len();
    stack.buf[stack.i..].copy_from_slice(data);

    assert_eq!(stack.next().unwrap(), b"pqr");
    assert_eq!(stack.next().unwrap(), b"mno");
    assert_eq!(stack.next().unwrap(), b"/");
    assert_eq!(stack.next().unwrap(), b"jkl");
    assert_eq!(stack.next().unwrap(), b"ghi");
    assert_eq!(stack.next().unwrap(), b"/");
    assert_eq!(stack.next().unwrap(), b"abc");
    assert_eq!(stack.next().unwrap(), b"def");
    assert_eq!(stack.next().unwrap(), b"//");
    assert_eq!(stack.next().unwrap(), b"/");
    assert_eq!(stack.next(), None);

    let data = b"abc";
    stack.i = stack.buf.len() - data.len();
    stack.buf[stack.i..].copy_from_slice(data);

    assert_eq!(stack.next().unwrap(), b"abc");
    assert_eq!(stack.next(), None);

    let mut stack = ComponentStack::new(&mut []);
    assert_eq!(
        stack.push_readlink(b"/\0").unwrap_err(),
        Errno::NameTooLong,
    );
}

fn check_it(mut it: ComponentIter, res: &[&[u8]]) {
    let mut res = res.iter();

    while let Some(component) = it.next() {
        assert_eq!(res.next().cloned(), Some(component));
        assert_eq!(it.is_empty(), res.len() == 0);
    }

    assert!(it.is_empty());
    assert_eq!(res.len(), 0, "{:?}", res);
}

#[test]
fn test_component_iter() {
    assert_eq!(ComponentIter::new(b"").unwrap_err(), Errno::NoEntry);
    assert_eq!(
        ComponentIter::new(b"\0").unwrap_err(),
        Errno::InvalidArgument
    );

    check_it(ComponentIter::new(b"/").unwrap(), &[b"/"]);
    check_it(ComponentIter::new(b"/abc").unwrap(), &[b"/", b"abc"]);
    check_it(ComponentIter::new(b"/abc/").unwrap(), &[b"/", b"abc"]);

    check_it(ComponentIter::new(b"//").unwrap(), &[b"//"]);
    check_it(ComponentIter::new(b"//abc").unwrap(), &[b"//", b"abc"]);
    check_it(ComponentIter::new(b"//abc/").unwrap(), &[b"//", b"abc"]);

    check_it(ComponentIter::new(b"./abc/").unwrap(), &[b"abc"]);
    check_it(ComponentIter::new(b"/./abc/.").unwrap(), &[b"/", b"abc"]);
    check_it(
        ComponentIter::new(b"/../abc/..").unwrap(),
        &[b"/", b"..", b"abc", b".."],
    );
}

#[test]
fn test_getcwd_toolong() {
    assert_eq!(
        getcwd(&mut SliceVec::empty(&mut []), Ok(b"/")).unwrap_err(),
        Errno::NameTooLong
    );
    assert_eq!(
        getcwd(&mut SliceVec::empty(&mut [0]), Ok(b"/")).unwrap_err(),
        Errno::NameTooLong
    );
}

#[test]
fn the_stack_takes_paths_and_gives_components() {
    let mut buf = [0; 32];
    let mut stack = ComponentStack::new(&mut buf);
    assert!(stack.is_empty());
    assert!(!stack.has_next());

    stack.push(b"c//d/").unwrap();
    assert!(!stack.is_empty());
    assert!(stack.has_next());
    stack.push(b"//").unwrap();
    stack.push(b"a/./b").unwrap();
    assert_eq!(&stack.buf[stack.i..], b"a/./b\0//\0c//d\0");

    assert_eq!(stack.next().unwrap(), b"a");
    assert!(stack.has_next());
    assert_eq!(stack.next().unwrap(), b"b");
    assert_eq!(stack.next().unwrap(), b"//");
    assert_eq!(stack.next().unwrap(), b"c");
    assert_eq!(stack.next().unwrap(), b"d");
    assert!(!stack.has_next());
    assert_eq!(stack.next(), None);
    assert!(stack.is_empty());
}

#[test]
fn a_stack_of_dots_has_no_component() {
    let mut buf = *b"./.\0.//./\0\0.";
    let mut stack = ComponentStack::new(&mut buf);
    stack.i = 0;
    assert!(!stack.is_empty());
    assert!(!stack.has_next());
    assert_eq!(stack.i, 0);
    assert_eq!(stack.next(), None);
    assert!(stack.is_empty());
}

#[test]
fn paths_of_slashes_are_stored_as_roots() {
    let mut buf = [0; 32];
    let mut stack = ComponentStack::new(&mut buf);

    stack.push(b"/").unwrap();
    assert_eq!(&stack.buf[stack.i..], b"/\0");
    stack.push(b"//").unwrap();
    assert_eq!(&stack.buf[stack.i..], b"//\0/\0");
    stack.push(b"///").unwrap();
    assert_eq!(&stack.buf[stack.i..], b"/\0//\0/\0");
    stack.push(b"//a///").unwrap();
    assert_eq!(&stack.buf[stack.i..], b"//a\0/\0//\0/\0");

    assert_eq!(stack.next().unwrap(), b"//");
    assert_eq!(stack.next().unwrap(), b"a");
    assert_eq!(stack.next().unwrap(), b"/");
    assert_eq!(stack.next().unwrap(), b"//");
    assert_eq!(stack.next().unwrap(), b"/");
    assert_eq!(stack.next(), None);
}

#[test]
fn a_push_needs_a_path_and_room() {
    let mut buf = [0; 4];
    let mut stack = ComponentStack::new(&mut buf);

    assert_eq!(stack.push(b"").unwrap_err(), Errno::NoEntry);
    assert_eq!(stack.push(b"a\0").unwrap_err(), Errno::InvalidArgument);
    assert_eq!(stack.push(b"abcd").unwrap_err(), Errno::NameTooLong);
    assert!(stack.is_empty());
    // The slashes at the end take no room.
    stack.push(b"abc//").unwrap();
    assert_eq!(stack.i, 0);
    assert_eq!(stack.push(b"a").unwrap_err(), Errno::NameTooLong);
    assert_eq!(&stack.buf[stack.i..], b"abc\0");
}

#[test]
fn a_target_needs_its_length_and_two_bytes() {
    let mut buf = [0; 8];
    let mut stack = ComponentStack::new(&mut buf);

    assert_eq!(
        stack.push_readlink(b"abcdefgh").unwrap_err(),
        Errno::NameTooLong
    );
    assert_eq!(
        stack.push_readlink(b"abcdefg").unwrap_err(),
        Errno::NameTooLong
    );
    assert_eq!(stack.i, 8);
    stack.push_readlink(b"abcdef").unwrap();
    assert_eq!(stack.i, 1);
    assert_eq!(&stack.buf[stack.i..], b"abcdef\0");
    assert_eq!(stack.push_readlink(b"").unwrap_err(), Errno::NameTooLong);

    // A NUL at the end of the target is not part of it.
    let mut buf = [0; 8];
    let mut stack = ComponentStack::new(&mut buf);
    assert_eq!(
        stack.push_readlink(b"abcdefg\0").unwrap_err(),
        Errno::NameTooLong
    );
    stack.push_readlink(b"abc/\0").unwrap();
    assert_eq!(&stack.buf[stack.i..], b"abc/\0");
    assert_eq!(stack.next().unwrap(), b"abc");
    assert!(stack.is_empty());
}

#[test]
fn a_cleared_stack_gives_its_region() {
    let mut buf = [0; 8];
    let mut stack = ComponentStack::new(&mut buf);
    stack.push(b"a/b").unwrap();

    let region = stack.clear();
    assert_eq!(region.len(), 8);
    region[0] = b'x';
    assert!(stack.is_empty());
    assert_eq!(stack.next(), None);
    assert_eq!(stack.buf[0], b'x');
}

#[test]
fn the_counter_stops_at_its_limit() {
    assert_eq!(DEFAULT_SYMLOOP_MAX, 40);

    let mut links = SymlinkCounter::new(2);
    links.advance().unwrap();
    links.advance().unwrap();
    assert_eq!(links.advance().unwrap_err(), Errno::TooManyLinks);
    assert_eq!(links.advance().unwrap_err(), Errno::TooManyLinks);

    let mut links = SymlinkCounter::new(0);
    assert_eq!(links.advance().unwrap_err(), Errno::TooManyLinks);

    for reported in [-1, i64::MIN, 65536, i64::MAX] {
        let mut links = SymlinkCounter::new(reported);
        for _ in 0..40 {
            links.advance().unwrap();
        }
        assert_eq!(links.advance().unwrap_err(), Errno::TooManyLinks);
    }

    let mut links = SymlinkCounter::new(65535);
    for _ in 0..65535 {
        links.advance().unwrap();
    }
    assert_eq!(links.advance().unwrap_err(), Errno::TooManyLinks);
}

#[test]
fn the_current_directory_is_taken_up_to_its_nul() {
    let mut region = [0; 16];
    let mut buf = SliceVec::empty(&mut region);

    getcwd(&mut buf, Ok(b"/home/user\0garbage")).unwrap();
    assert_eq!(buf.as_ref(), b"/home/user");

    getcwd(&mut buf, Ok(b"/")).unwrap();
    assert_eq!(buf.as_ref(), b"/");

    // Fifteen bytes and the NUL fill the region.
    getcwd(&mut buf, Ok(b"/23456789012345")).unwrap();
    assert_eq!(buf.as_ref(), b"/23456789012345");
    assert_eq!(
        getcwd(&mut buf, Ok(b"/234567890123456")).unwrap_err(),
        Errno::NameTooLong
    );
    assert_eq!(buf.as_ref(), b"/23456789012345");
}

#[test]
fn the_current_directory_has_to_be_absolute() {
    let mut region = [0; 16];
    let mut buf = SliceVec::empty(&mut region);
    buf.replace(b"before").unwrap();

    assert_eq!(getcwd(&mut buf, Ok(b"")).unwrap_err(), Errno::NoEntry);
    assert_eq!(getcwd(&mut buf, Ok(b"\0/a")).unwrap_err(), Errno::NoEntry);
    assert_eq!(getcwd(&mut buf, Ok(b"home")).unwrap_err(), Errno::NoEntry);
    assert_eq!(
        getcwd(&mut buf, Ok(b"(unreachable)/home")).unwrap_err(),
        Errno::NameTooLong
    );
    assert_eq!(buf.as_ref(), b"before");
}

#[test]
fn a_failure_for_want_of_room_is_name_too_long() {
    let mut region = [0; 16];
    let mut buf = SliceVec::empty(&mut region);

    assert_eq!(
        getcwd(&mut buf, Err(Errno::OutOfRange)).unwrap_err(),
        Errno::NameTooLong
    );
    assert_eq!(
        getcwd(&mut buf, Err(Errno::InvalidArgument)).unwrap_err(),
        Errno::NameTooLong
    );
    assert_eq!(
        getcwd(&mut buf, Err(Errno::NameTooLong)).unwrap_err(),
        Errno::NameTooLong
    );
    assert_eq!(
        getcwd(&mut buf, Err(Errno::NoEntry)).unwrap_err(),
        Errno::NoEntry
    );
    assert_eq!(
        getcwd(&mut buf, Err(Errno::AccessDenied)).unwrap_err(),
        Errno::AccessDenied
    );
    assert_eq!(
        getcwd(&mut buf, Err(Errno::Other(5))).unwrap_err(),
        Errno::Other(5)
    );
}

#[test]
fn a_walk_ends_and_stays_at_its_end() {
    let mut it = ComponentIter::new(b"a//.//..//...//b/.").unwrap();
    assert!(!it.is_empty());
    assert_eq!(it.next().unwrap(), b"a");
    assert_eq!(it.next().unwrap(), b"..");
    assert_eq!(it.next().unwrap(), b"...");
    assert!(!it.is_empty());
    assert_eq!(it.next().unwrap(), b"b");
    assert!(it.is_empty());
    assert_eq!(it.next(), None);
    assert_eq!(it.next(), None);

    let mut it = ComponentIter::new(b"///").unwrap();
    assert!(!it.is_empty());
    assert_eq!(it.next().unwrap(), b"/");
    assert!(it.is_empty());
    assert_eq!(it.next(), None);

    let mut it = ComponentIter::new(b"././/.").unwrap();
    assert!(it.is_empty());
    assert_eq!(it.next(), None);

    assert_eq!(
        ComponentIter::new(b"abc\0def").unwrap_err(),
        Errno::InvalidArgument
    );
}
