use realpath_ext::builder::{RealpathBuilder, RealpathRawBuilder, TEMP_MARGIN};
use realpath_ext::errno::Errno;
use realpath_ext::flags::RealpathFlags;
use realpath_ext::machine::Step;
use realpath_ext::realpath_raw;

#[test]
fn the_first_region_is_as_long_as_the_longest_path() {
    let mut builder = RealpathBuilder::new(4096);
    assert_eq!(builder.get_flags(), RealpathFlags::empty());
    assert_eq!(builder.initial_len(), 4096);

    builder.max_len(32768);
    assert_eq!(builder.initial_len(), 4096);

    builder.max_len(100);
    assert_eq!(builder.initial_len(), 100);

    builder.max_len(0).flags(RealpathFlags::all());
    assert_eq!(builder.initial_len(), 0);
    assert_eq!(builder.get_flags(), RealpathFlags::all());
}

#[test]
fn the_region_doubles_up_to_the_longest_result() {
    let mut builder = RealpathBuilder::new(4096);
    builder.max_len(10000);

    let too_long = Err(Errno::NameTooLong);
    assert_eq!(builder.grown_len(4096, too_long), Some(8192));
    assert_eq!(builder.grown_len(5000, too_long), Some(10000));
    assert_eq!(builder.grown_len(5001, too_long), Some(10000));
    assert_eq!(builder.grown_len(8192, too_long), Some(10000));
    assert_eq!(builder.grown_len(9999, too_long), Some(10000));
    assert_eq!(builder.grown_len(10000, too_long), None);
    assert_eq!(builder.grown_len(20000, too_long), None);
    assert_eq!(builder.grown_len(0, too_long), Some(0));

    assert_eq!(builder.grown_len(4096, Ok(17)), None);
    assert_eq!(builder.grown_len(4096, Err(Errno::NoEntry)), None);
    assert_eq!(builder.grown_len(4096, Err(Errno::Other(36))), None);

    builder.max_len(usize::MAX);
    assert_eq!(
        builder.grown_len(usize::MAX / 2 + 1, too_long),
        Some(usize::MAX)
    );
    assert_eq!(
        builder.grown_len(usize::MAX / 2, too_long),
        Some(usize::MAX - 1)
    );
}

#[test]
fn the_other_region_is_a_hundred_bytes_larger() {
    assert_eq!(TEMP_MARGIN, 100);
    assert_eq!(RealpathBuilder::temp_len(0), 100);
    assert_eq!(RealpathBuilder::temp_len(4096), 4196);
    assert_eq!(RealpathBuilder::temp_len(usize::MAX - 100), usize::MAX);
    assert_eq!(RealpathBuilder::temp_len(usize::MAX - 99), usize::MAX);
    assert_eq!(RealpathBuilder::temp_len(usize::MAX), usize::MAX);
}

#[test]
fn a_resolution_uses_the_region_that_was_set() {
    let mut buf = [0; 32];
    let mut large = [0; 64];
    let mut spare = [0; 16];

    let mut builder = RealpathRawBuilder::new();
    builder.temp_buffer(Some(&mut large));
    let resolver = builder.realpath_raw(b"/abc", &mut buf, &mut spare, 40);
    assert_eq!(resolver.step(), Step::ReadLink { limit: 64 });
    assert_eq!(resolver.path(), b"/abc\0");
}

#[test]
fn a_resolution_uses_the_spare_region_where_none_was_set() {
    let mut buf = [0; 32];
    let mut large = [0; 64];
    let mut spare = [0; 16];

    let mut builder = RealpathRawBuilder::new();
    let resolver = builder
        .flags(RealpathFlags::ignore_symlinks())
        .realpath_raw(b"/abc", &mut buf, &mut spare, 40);
    assert_eq!(resolver.step(), Step::Probe);

    let mut builder = RealpathRawBuilder::new();
    builder.temp_buffer(Some(&mut large)).temp_buffer(None);
    let resolver = builder.realpath_raw(b"/abc", &mut buf, &mut spare, 40);
    assert_eq!(resolver.step(), Step::ReadLink { limit: 16 });
}

#[test]
fn a_resolution_can_be_started_without_settings() {
    let mut buf = [0; 32];
    let mut tmp = [0; 48];
    let mut resolver = realpath_raw(b"x/", &mut buf, &mut tmp, RealpathFlags::empty(), -1);
    assert_eq!(resolver.step(), Step::ReadLink { limit: 48 });
    assert_eq!(resolver.path(), b"x\0");
    assert_eq!(resolver.resume(Err(Errno::InvalidArgument)), Step::CheckDir);
    assert_eq!(resolver.path(), b"x\0");
    assert_eq!(
        resolver.resume(Err(Errno::NotADirectory)),
        Step::Failed(Errno::NotADirectory)
    );
}
