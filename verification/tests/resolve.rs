use realpath_ext::errno::Errno;
use realpath_ext::flags::RealpathFlags;
use realpath_ext::machine::Step;
use realpath_ext::resolve::Resolver;

// A small file system in memory, to answer the resolver's requests.

#[derive(Clone, Copy)]
enum Node {
    Dir,
    File,
    Link(&'static [u8]),
}

struct World {
    cwd: &'static [u8],
    nodes: Vec<(&'static [u8], Node)>,
    symloop_max: i64,
}

fn world() -> World {
    World {
        cwd: b"/home/user",
        nodes: vec![
            (b"/", Node::Dir),
            (b"/bin", Node::Dir),
            (b"/bin/sh", Node::File),
            (b"/etc", Node::Dir),
            (b"/etc/passwd", Node::File),
            (b"/usr", Node::Dir),
            (b"/usr/bin", Node::Dir),
            (b"/home", Node::Dir),
            (b"/home/user", Node::Dir),
            (b"/home/user/src", Node::Dir),
            (b"/home/user/exe", Node::File),
            (b"/home/user/up", Node::Link(b"../..")),
            (b"/home/user/passwd", Node::Link(b"/etc/passwd")),
            (b"/home/user/tools", Node::Link(b"/usr//bin/")),
            (b"/home/user/loop", Node::Link(b"loop")),
            (b"/home/user/l1", Node::Link(b"l2")),
            (b"/home/user/l2", Node::Link(b"l3")),
            (b"/home/user/l3", Node::Link(b"src")),
            (b"/home/user/nowhere", Node::Link(b"/NOEXIST/below")),
        ],
        symloop_max: -1,
    }
}

impl World {
    // The absolute, normal form of a path that the resolver asks about.
    fn key(&self, path: &[u8]) -> Vec<u8> {
        let mut parts: Vec<&[u8]> = Vec::new();
        let rel: Vec<u8>;
        let full: &[u8] = if path.starts_with(b"/") {
            path
        } else {
            let mut joined = self.cwd.to_vec();
            joined.push(b'/');
            joined.extend_from_slice(path);
            rel = joined;
            &rel
        };
        for part in full.split(|&c| c == b'/') {
            if part.is_empty() || part == b"." {
                continue;
            } else if part == b".." {
                parts.pop();
            } else {
                parts.push(part);
            }
        }
        let mut key = Vec::new();
        for part in parts.iter() {
            key.push(b'/');
            key.extend_from_slice(part);
        }
        if key.is_empty() {
            key.push(b'/');
        }
        key
    }

    fn find(&self, key: &[u8]) -> Option<Node> {
        self.nodes.iter().find(|(name, _)| *name == key).map(|(_, node)| *node)
    }

    // What the path names, with the errors that the way to it gives.
    fn lookup(&self, path: &[u8]) -> Result<Node, Errno> {
        if path.is_empty() {
            return Err(Errno::NoEntry);
        }
        let key = self.key(path);
        for (i, &c) in key.iter().enumerate().skip(1) {
            if c == b'/' {
                match self.find(&key[..i]) {
                    None => return Err(Errno::NoEntry),
                    Some(Node::File) => return Err(Errno::NotADirectory),
                    Some(_) => {}
                }
            }
        }
        self.find(&key).ok_or(Errno::NoEntry)
    }

    fn readlink(&self, path: &[u8], limit: usize) -> Result<Vec<u8>, Errno> {
        match self.lookup(path)? {
            Node::Link(target) => Ok(target[..target.len().min(limit)].to_vec()),
            _ => Err(Errno::InvalidArgument),
        }
    }

    fn check_dir(&self, path: &[u8]) -> Result<Vec<u8>, Errno> {
        match self.lookup(path)? {
            Node::Dir => Ok(Vec::new()),
            _ => Err(Errno::NotADirectory),
        }
    }

    fn getcwd(&self, limit: usize) -> Result<Vec<u8>, Errno> {
        if limit == 0 {
            Err(Errno::InvalidArgument)
        } else if self.cwd.len() + 1 > limit {
            Err(Errno::OutOfRange)
        } else {
            let mut cwd = self.cwd.to_vec();
            cwd.push(0);
            Ok(cwd)
        }
    }

    // Runs one resolution to its end, in the two regions given.
    fn realpath_raw(
        &self,
        path: &[u8],
        buf: &mut [u8],
        tmp: &mut [u8],
        flags: RealpathFlags,
    ) -> Result<usize, Errno> {
        let mut resolver = Resolver::new(path, buf, tmp, flags, self.symloop_max);
        let mut step = resolver.step();
        loop {
            let reply = match step {
                Step::Done(n) => return Ok(n),
                Step::Failed(e) => return Err(e),
                Step::ReadLink { limit } => self.readlink(c_str(resolver.path()), limit),
                Step::Probe => self.readlink(c_str(resolver.path()), 0),
                Step::CheckDir => self.check_dir(c_str(resolver.path())),
                Step::GetCwd { limit } => self.getcwd(limit),
            };
            step = match &reply {
                Ok(bytes) => resolver.resume(Ok(bytes)),
                Err(e) => resolver.resume(Err(*e)),
            };
        }
    }

    fn realpath(&self, path: &[u8], flags: RealpathFlags) -> Result<Vec<u8>, Errno> {
        let mut buf = [0; 256];
        let mut tmp = [0; 356];
        let n = self.realpath_raw(path, &mut buf, &mut tmp, flags)?;
        Ok(buf[..n].to_vec())
    }
}

// The path in front of the NUL that ends it.
fn c_str(path: &[u8]) -> &[u8] {
    assert_eq!(path.last(), Some(&0));
    &path[..path.len() - 1]
}

#[test]
fn test_success() {
    let world = world();

    for &(path, expected) in [
        (&b"/"[..], &b"/"[..]),
        (b".", b"/home/user"),
        (b"..", b"/home"),
        (b"../..", b"/"),
        (b"..//..//../", b"/"),
        (b"/bin", b"/bin"),
        (b"///usr/./bin/.", b"/usr/bin"),
        (b"src", b"/home/user/src"),
        (b"/etc/passwd", b"/etc/passwd"),
        (b"/home/user", b"/home/user"),
        (b"../user", b"/home/user"),
        (b"../user/src/..", b"/home/user"),
        (b"./././src/./", b"/home/user/src"),
    ]
    .iter()
    {
        assert_eq!(
            world.realpath(path, RealpathFlags::empty()).unwrap(),
            expected
        );

        world
            .realpath(path, RealpathFlags::ignore_symlinks())
            .unwrap();
    }
}

#[test]
fn test_leading_slashes() {
    let world = world();

    assert_eq!(world.realpath(b"/", RealpathFlags::empty()).unwrap(), b"/");
    assert_eq!(
        world.realpath(b"//", RealpathFlags::empty()).unwrap(),
        b"//"
    );
    assert_eq!(
        world.realpath(b"///", RealpathFlags::empty()).unwrap(),
        b"/"
    );

    assert!(!world
        .realpath(b"/", RealpathFlags::empty())
        .unwrap()
        .starts_with(b"//"));
    assert!(world
        .realpath(b"//", RealpathFlags::empty())
        .unwrap()
        .starts_with(b"//"));
    assert!(!world
        .realpath(b"///", RealpathFlags::empty())
        .unwrap()
        .starts_with(b"//"));

    assert_eq!(
        world.realpath(b"//usr/bin", RealpathFlags::empty()).unwrap(),
        b"//usr/bin"
    );
    assert_eq!(
        world.realpath(b"////usr/bin", RealpathFlags::empty()).unwrap(),
        b"/usr/bin"
    );
}

#[test]
fn test_enotdir() {
    let world = world();
    let path = b"/home/user/exe/.";
    assert_eq!(
        world.realpath(path, RealpathFlags::empty()).unwrap_err(),
        Errno::NotADirectory
    );

    assert_eq!(
        world
            .realpath(path, RealpathFlags::ignore_symlinks())
            .unwrap_err(),
        Errno::NotADirectory
    );

    assert_eq!(
        world
            .realpath(path, RealpathFlags::allow_last_missing())
            .unwrap_err(),
        Errno::NotADirectory
    );

    let path2 = b"/home/user/exe/a/.";

    assert_eq!(
        world.realpath(path2, RealpathFlags::empty()).unwrap_err(),
        Errno::NotADirectory
    );

    assert_eq!(
        world
            .realpath(path2, RealpathFlags::ignore_symlinks())
            .unwrap_err(),
        Errno::NotADirectory
    );

    world
        .realpath(path2, RealpathFlags::allow_missing())
        .unwrap();

    assert_eq!(
        world
            .realpath(b"/etc/passwd/", RealpathFlags::empty())
            .unwrap_err(),
        Errno::NotADirectory
    );
    assert_eq!(
        world
            .realpath(b"/etc/passwd/abc", RealpathFlags::empty())
            .unwrap_err(),
        Errno::NotADirectory
    );

    assert_eq!(
        world
            .realpath(b"/etc/passwd/", RealpathFlags::ignore_symlinks())
            .unwrap_err(),
        Errno::NotADirectory
    );
    assert_eq!(
        world
            .realpath(b"/etc/passwd/abc", RealpathFlags::ignore_symlinks())
            .unwrap_err(),
        Errno::NotADirectory
    );

    world
        .realpath(b"/etc/passwd/", RealpathFlags::allow_missing())
        .unwrap();
    assert_eq!(
        world
            .realpath(b"/etc/passwd/", RealpathFlags::allow_last_missing())
            .unwrap_err(),
        Errno::NotADirectory
    );
    world
        .realpath(b"/etc/passwd/abc", RealpathFlags::allow_missing())
        .unwrap();
    assert_eq!(
        world
            .realpath(b"/etc/passwd/abc", RealpathFlags::allow_last_missing())
            .unwrap_err(),
        Errno::NotADirectory
    );
}

#[test]
fn test_enoent() {
    let world = world();

    assert_eq!(
        world
            .realpath(b"NOEXIST", RealpathFlags::empty())
            .unwrap_err(),
        Errno::NoEntry
    );

    world
        .realpath(b"NOEXIST", RealpathFlags::allow_missing())
        .unwrap();
    world
        .realpath(b"NOEXIST", RealpathFlags::allow_last_missing())
        .unwrap();

    world
        .realpath(b"NOEXIST/abc", RealpathFlags::allow_missing())
        .unwrap();
    assert_eq!(
        world
            .realpath(b"NOEXIST/abc", RealpathFlags::allow_last_missing())
            .unwrap_err(),
        Errno::NoEntry
    );
}

#[test]
fn missing_names_stay_in_the_result() {
    let world = world();

    assert_eq!(
        world
            .realpath(b"NOEXIST", RealpathFlags::allow_last_missing())
            .unwrap(),
        b"/home/user/NOEXIST"
    );
    assert_eq!(
        world
            .realpath(b"NOEXIST/abc/../def", RealpathFlags::allow_missing())
            .unwrap(),
        b"/home/user/NOEXIST/def"
    );
    assert_eq!(
        world
            .realpath(b"/etc/NOEXIST/", RealpathFlags::allow_last_missing())
            .unwrap(),
        b"/etc/NOEXIST"
    );
    assert_eq!(
        world
            .realpath(b"../NOEXIST", RealpathFlags::allow_last_missing())
            .unwrap(),
        b"/home/NOEXIST"
    );
}

#[test]
fn empty_and_nul_are_refused() {
    let world = world();

    assert_eq!(
        world.realpath(b"", RealpathFlags::empty()).unwrap_err(),
        Errno::NoEntry
    );
    assert_eq!(
        world.realpath(b"a\0b", RealpathFlags::empty()).unwrap_err(),
        Errno::InvalidArgument
    );
    assert_eq!(
        world.realpath(b"\0", RealpathFlags::all()).unwrap_err(),
        Errno::InvalidArgument
    );
}

#[test]
fn links_are_followed() {
    let world = world();

    assert_eq!(
        world.realpath(b"up", RealpathFlags::empty()).unwrap(),
        b"/"
    );
    assert_eq!(
        world.realpath(b"up/etc/passwd", RealpathFlags::empty()).unwrap(),
        b"/etc/passwd"
    );
    assert_eq!(
        world.realpath(b"passwd", RealpathFlags::empty()).unwrap(),
        b"/etc/passwd"
    );
    assert_eq!(
        world.realpath(b"tools", RealpathFlags::empty()).unwrap(),
        b"/usr/bin"
    );
    assert_eq!(
        world.realpath(b"/home/user/tools/..", RealpathFlags::empty()).unwrap(),
        b"/usr"
    );
    assert_eq!(
        world.realpath(b"l1", RealpathFlags::empty()).unwrap(),
        b"/home/user/src"
    );
    assert_eq!(
        world.realpath(b"l1/..", RealpathFlags::empty()).unwrap(),
        b"/home/user"
    );
}

#[test]
fn links_are_kept_when_ignored() {
    let world = world();

    assert_eq!(
        world
            .realpath(b"passwd", RealpathFlags::ignore_symlinks())
            .unwrap(),
        b"/home/user/passwd"
    );
    assert_eq!(
        world
            .realpath(b"loop", RealpathFlags::ignore_symlinks())
            .unwrap(),
        b"/home/user/loop"
    );
    assert_eq!(
        world
            .realpath(b"NOEXIST", RealpathFlags::ignore_symlinks())
            .unwrap_err(),
        Errno::NoEntry
    );
}

#[test]
fn a_dangling_link_is_a_missing_name() {
    let world = world();

    assert_eq!(
        world.realpath(b"nowhere", RealpathFlags::empty()).unwrap_err(),
        Errno::NoEntry
    );
    assert_eq!(
        world
            .realpath(b"nowhere", RealpathFlags::allow_last_missing())
            .unwrap_err(),
        Errno::NoEntry
    );
    assert_eq!(
        world
            .realpath(b"nowhere", RealpathFlags::allow_missing())
            .unwrap(),
        b"/NOEXIST/below"
    );
}

#[test]
fn too_many_links() {
    let mut world = world();

    // A link to itself never ends.
    assert_eq!(
        world.realpath(b"loop", RealpathFlags::empty()).unwrap_err(),
        Errno::TooManyLinks
    );
    assert_eq!(
        world
            .realpath(b"loop", RealpathFlags::allow_missing())
            .unwrap_err(),
        Errno::TooManyLinks
    );

    // Three links lead from `l1` to `src`.
    world.symloop_max = 3;
    assert_eq!(
        world.realpath(b"l1", RealpathFlags::empty()).unwrap(),
        b"/home/user/src"
    );
    world.symloop_max = 2;
    assert_eq!(
        world.realpath(b"l1", RealpathFlags::empty()).unwrap_err(),
        Errno::TooManyLinks
    );
    assert_eq!(
        world.realpath(b"l2", RealpathFlags::empty()).unwrap(),
        b"/home/user/src"
    );
    world.symloop_max = 0;
    assert_eq!(
        world.realpath(b"l3", RealpathFlags::empty()).unwrap_err(),
        Errno::TooManyLinks
    );
    assert_eq!(
        world.realpath(b"src", RealpathFlags::empty()).unwrap(),
        b"/home/user/src"
    );

    // A limit beyond 16 bits counts as none given: forty links.
    world.symloop_max = 70000;
    assert_eq!(
        world.realpath(b"loop", RealpathFlags::empty()).unwrap_err(),
        Errno::TooManyLinks
    );
}

#[test]
fn the_default_limit_is_forty_links() {
    let mut buf = [0; 64];
    let mut tmp = [0; 600];
    let mut resolver = Resolver::new(b"/a", &mut buf, &mut tmp, RealpathFlags::empty(), -1);
    let mut followed = 0;
    loop {
        match resolver.step() {
            Step::ReadLink { .. } => {
                assert_eq!(resolver.path(), b"/a\0");
                resolver.resume(Ok(b"/a"));
                followed += 1;
            }
            Step::Failed(e) => {
                assert_eq!(e, Errno::TooManyLinks);
                break;
            }
            step => panic!("{:?}", step),
        }
    }
    assert_eq!(followed, 41);
}

#[test]
fn the_current_directory_may_be_the_root() {
    let mut world = world();
    world.cwd = b"/";

    assert_eq!(
        world.realpath(b"etc", RealpathFlags::empty()).unwrap(),
        b"/etc"
    );
    assert_eq!(
        world.realpath(b"../etc", RealpathFlags::empty()).unwrap(),
        b"/etc"
    );
    assert_eq!(world.realpath(b".", RealpathFlags::empty()).unwrap(), b"/");
    assert_eq!(
        world.realpath(b"../..", RealpathFlags::empty()).unwrap(),
        b"/"
    );
}

#[test]
fn resolving_a_result_again_changes_nothing() {
    let world = world();

    for path in [
        &b"."[..],
        b"..",
        b"src/..//.",
        b"tools",
        b"up/home/user/l1",
        b"///usr/./bin/.",
        b"//",
    ] {
        let once = world.realpath(path, RealpathFlags::empty()).unwrap();
        let twice = world.realpath(&once, RealpathFlags::empty()).unwrap();
        assert_eq!(once, twice);
    }
}

#[test]
fn the_result_needs_its_room_and_one_byte_for_a_name() {
    let world = world();
    let mut tmp = [0; 100];

    // A root stands alone: it needs its own length.
    let mut buf = [0; 1];
    assert_eq!(
        world.realpath_raw(b"/", &mut buf, &mut tmp, RealpathFlags::empty()),
        Ok(1)
    );
    assert_eq!(
        world.realpath_raw(b"/", &mut [], &mut tmp, RealpathFlags::empty()),
        Err(Errno::NameTooLong)
    );
    assert_eq!(
        world.realpath_raw(b"//", &mut buf, &mut tmp, RealpathFlags::empty()),
        Err(Errno::NameTooLong)
    );

    // A name is asked about as a C string: the NUL needs room as well.
    let mut buf = [0; 9];
    assert_eq!(
        world.realpath_raw(b"/usr/bin", &mut buf, &mut tmp, RealpathFlags::empty()),
        Ok(8)
    );
    assert_eq!(&buf[..8], b"/usr/bin");
    let mut buf = [0; 8];
    assert_eq!(
        world.realpath_raw(b"/usr/bin", &mut buf, &mut tmp, RealpathFlags::empty()),
        Err(Errno::NameTooLong)
    );

    // So does the NUL at the end of the current directory.
    let mut buf = [0; 11];
    assert_eq!(
        world.realpath_raw(b".", &mut buf, &mut tmp, RealpathFlags::empty()),
        Ok(10)
    );
    let mut buf = [0; 10];
    assert_eq!(
        world.realpath_raw(b".", &mut buf, &mut tmp, RealpathFlags::empty()),
        Err(Errno::NameTooLong)
    );

    // A relative result is the current directory, a slash, and the rest.
    let mut buf = [0; 14];
    assert_eq!(
        world.realpath_raw(b"src", &mut buf, &mut tmp, RealpathFlags::empty()),
        Ok(14)
    );
    assert_eq!(&buf[..], b"/home/user/src");
    let mut buf = [0; 13];
    assert_eq!(
        world.realpath_raw(b"src", &mut buf, &mut tmp, RealpathFlags::empty()),
        Err(Errno::NameTooLong)
    );
}

#[test]
fn the_stack_needs_room_for_the_path_and_for_targets() {
    let world = world();
    let mut buf = [0; 100];

    // The path goes on the stack with a NUL behind it, and a link read
    // needs a byte of room.
    let mut tmp = [0; 5];
    assert_eq!(
        world.realpath_raw(b"/bin", &mut buf, &mut tmp, RealpathFlags::empty()),
        Ok(4)
    );
    let mut tmp = [0; 4];
    assert_eq!(
        world.realpath_raw(b"/bin", &mut buf, &mut tmp, RealpathFlags::empty()),
        Err(Errno::NameTooLong)
    );

    // The target `/etc/passwd` takes its eleven bytes and two more.
    let mut tmp = [0; 13];
    assert_eq!(
        world.realpath_raw(b"passwd", &mut buf, &mut tmp, RealpathFlags::empty()),
        Ok(11)
    );
    let mut tmp = [0; 12];
    assert_eq!(
        world.realpath_raw(b"passwd", &mut buf, &mut tmp, RealpathFlags::empty()),
        Err(Errno::NameTooLong)
    );
}

#[test]
fn a_finished_resolution_stays_finished() {
    let mut buf = [0; 16];
    let mut tmp = [0; 16];
    let mut resolver = Resolver::new(b"//", &mut buf, &mut tmp, RealpathFlags::empty(), 40);
    assert_eq!(resolver.step(), Step::Done(2));
    assert_eq!(resolver.resume(Ok(b"/elsewhere")), Step::Done(2));
    assert_eq!(resolver.resume(Err(Errno::NoEntry)), Step::Done(2));
    assert_eq!(resolver.path(), b"//");

    let mut resolver = Resolver::new(b"", &mut buf, &mut tmp, RealpathFlags::empty(), 40);
    assert_eq!(resolver.step(), Step::Failed(Errno::NoEntry));
    assert_eq!(resolver.resume(Ok(b"/")), Step::Failed(Errno::NoEntry));
}

#[test]
fn the_requests_come_in_order() {
    let mut buf = [0; 32];
    let mut tmp = [0; 32];
    let mut resolver = Resolver::new(b"a/b/", &mut buf, &mut tmp, RealpathFlags::empty(), 40);

    // `a\0a/b\0` would not fit twice: the stack holds `a/b` and a NUL.
    assert_eq!(resolver.step(), Step::ReadLink { limit: 30 });
    assert_eq!(resolver.path(), b"a\0");
    assert_eq!(
        resolver.resume(Err(Errno::InvalidArgument)),
        Step::ReadLink { limit: 32 }
    );
    assert_eq!(resolver.path(), b"a/b\0");
    // `b` is a link to `/x/`: the path so far is dropped.
    assert_eq!(resolver.resume(Ok(b"/x/")), Step::ReadLink { limit: 32 });
    assert_eq!(resolver.path(), b"/x\0");
    // The path asked for a directory.
    assert_eq!(resolver.resume(Err(Errno::InvalidArgument)), Step::CheckDir);
    assert_eq!(resolver.path(), b"/x\0");
    assert_eq!(resolver.resume(Ok(b"")), Step::Done(2));
    assert_eq!(resolver.path(), b"/x");
}

#[test]
fn an_other_error_passes_through() {
    let mut buf = [0; 32];
    let mut tmp = [0; 32];
    for flags in [
        RealpathFlags::empty(),
        RealpathFlags::all(),
        RealpathFlags::allow_missing(),
    ] {
        let mut resolver = Resolver::new(b"/a", &mut buf, &mut tmp, flags, 40);
        assert_eq!(
            resolver.resume(Err(Errno::Other(5))),
            Step::Failed(Errno::Other(5))
        );
    }
    let mut resolver = Resolver::new(b"a", &mut buf, &mut tmp, RealpathFlags::all(), 40);
    assert_eq!(resolver.step(), Step::Probe);
    assert_eq!(
        resolver.resume(Ok(b"")),
        Step::GetCwd { limit: 32 }
    );
    assert_eq!(
        resolver.resume(Err(Errno::AccessDenied)),
        Step::Failed(Errno::AccessDenied)
    );
}

#[test]
fn a_closed_directory_stops_the_resolution_unless_anything_may_be_missing() {
    let mut buf = [0; 32];
    let mut tmp = [0; 32];
    for (flags, goes_on) in [
        (RealpathFlags::empty(), false),
        (RealpathFlags::allow_last_missing(), false),
        (RealpathFlags::allow_missing(), true),
    ] {
        let mut resolver = Resolver::new(b"/a/b", &mut buf, &mut tmp, flags, 40);
        assert_eq!(resolver.step(), Step::ReadLink { limit: 30 });
        assert_eq!(resolver.path(), b"/a\0");
        let step = resolver.resume(Err(Errno::AccessDenied));
        if goes_on {
            assert_eq!(step, Step::ReadLink { limit: 32 });
            assert_eq!(resolver.path(), b"/a/b\0");
        } else {
            assert_eq!(step, Step::Failed(Errno::AccessDenied));
        }
    }
}

#[test]
fn the_target_of_a_link_is_resolved_before_the_rest_of_the_path() {
    let mut buf = [0; 32];
    let mut tmp = [0; 32];
    let mut resolver = Resolver::new(b"a/b/c", &mut buf, &mut tmp, RealpathFlags::empty(), 40);
    assert_eq!(resolver.path(), b"a\0");
    // `a` is a link to `x/../y`.
    resolver.resume(Ok(b"x/../y"));
    assert_eq!(resolver.path(), b"x\0");
    resolver.resume(Err(Errno::InvalidArgument));
    // `x/..` is gone again.
    assert_eq!(resolver.path(), b"y\0");
    resolver.resume(Err(Errno::InvalidArgument));
    assert_eq!(resolver.path(), b"y/b\0");
    // `b` is a link to `//z`: the result starts anew.
    resolver.resume(Ok(b"//z\0"));
    assert_eq!(resolver.path(), b"//z\0");
    resolver.resume(Err(Errno::InvalidArgument));
    assert_eq!(resolver.path(), b"//z/c\0");
    assert_eq!(resolver.resume(Err(Errno::InvalidArgument)), Step::Done(5));
    assert_eq!(resolver.path(), b"//z/c");
    drop(resolver);
    assert_eq!(&buf[..5], b"//z/c");
}
