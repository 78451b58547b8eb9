use realpath_ext::flags::{
    RealpathFlags, ALL, ALLOW_LAST_MISSING, ALLOW_MISSING, IGNORE_SYMLINKS,
};

#[test]
fn the_switches_have_their_bits() {
    assert_eq!(RealpathFlags::empty().bits(), 0);
    assert_eq!(RealpathFlags::allow_missing().bits(), 0x01);
    assert_eq!(RealpathFlags::allow_last_missing().bits(), 0x02);
    assert_eq!(RealpathFlags::ignore_symlinks().bits(), 0x04);
    assert_eq!(RealpathFlags::all().bits(), 0x07);
    assert_eq!(ALLOW_MISSING | ALLOW_LAST_MISSING | IGNORE_SYMLINKS, ALL);
}

#[test]
fn a_set_contains_what_was_put_in() {
    let mut flags = RealpathFlags::empty();
    assert!(flags.is_empty());
    assert!(flags.contains(RealpathFlags::empty()));
    assert!(!flags.contains(RealpathFlags::allow_missing()));

    flags.insert(RealpathFlags::allow_last_missing());
    assert!(!flags.is_empty());
    assert!(flags.contains(RealpathFlags::allow_last_missing()));
    assert!(!flags.contains(RealpathFlags::allow_missing()));
    assert!(!flags.contains(RealpathFlags::ignore_symlinks()));
    assert!(!flags.contains(RealpathFlags::all()));

    let both = flags.union(RealpathFlags::ignore_symlinks());
    assert_eq!(both.bits(), 0x06);
    assert!(both.contains(RealpathFlags::ignore_symlinks()));
    assert!(both.contains(flags));
    assert!(!flags.contains(both));

    flags.insert(RealpathFlags::all());
    assert_eq!(flags, RealpathFlags::all());
    flags.remove(RealpathFlags::allow_last_missing());
    assert_eq!(flags.bits(), 0x05);
    flags.remove(RealpathFlags::allow_last_missing());
    assert_eq!(flags.bits(), 0x05);
}

#[test]
fn bits_that_are_no_switch_are_refused_or_dropped() {
    assert_eq!(RealpathFlags::from_bits(0), Some(RealpathFlags::empty()));
    assert_eq!(
        RealpathFlags::from_bits(0x03),
        Some(RealpathFlags::allow_missing().union(RealpathFlags::allow_last_missing()))
    );
    assert_eq!(RealpathFlags::from_bits(0x07), Some(RealpathFlags::all()));
    assert_eq!(RealpathFlags::from_bits(0x08), None);
    assert_eq!(RealpathFlags::from_bits(0x0c), None);
    assert_eq!(RealpathFlags::from_bits(u32::MAX), None);

    assert_eq!(RealpathFlags::from_bits_truncate(0x08).bits(), 0);
    assert_eq!(RealpathFlags::from_bits_truncate(0x0c).bits(), 0x04);
    assert_eq!(RealpathFlags::from_bits_truncate(u32::MAX).bits(), 0x07);
}
