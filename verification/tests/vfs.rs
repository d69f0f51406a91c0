use toast::fs::vfs::Vfs;

#[test]
fn init_creates_the_root_and_its_entries() {
    let vfs = Vfs::init();
    assert_eq!(vfs.root_directory(), 0);
    assert_eq!(vfs.find_child(0, "."), Some(1));
    assert_eq!(vfs.find_child(0, ".."), Some(2));
    assert_eq!(vfs.parent(1), Some(0));
    assert_eq!(vfs.parent(0), None);
    assert_eq!(vfs.get_absolute_path(0), "/");
}

#[test]
fn paths_are_followed_from_child_to_child() {
    let mut vfs = Vfs::init();
    vfs.add_child_node(0, "dev");
    vfs.add_child_node(3, "fb0");
    vfs.add_child_node(0, "home");
    assert_eq!(vfs.find_child(0, "dev"), Some(3));
    assert_eq!(vfs.find_from_absolute_path(0, "/dev/fb0"), Some(4));
    assert_eq!(vfs.find_from_absolute_path(0, "/home"), Some(5));
    assert_eq!(vfs.find_from_absolute_path(3, "/fb0"), Some(4));
    assert_eq!(vfs.find_from_absolute_path(0, "/dev/nope"), None);
    // The root path has one empty component, which no child is named.
    assert_eq!(vfs.find_from_absolute_path(0, "/"), None);
    assert_eq!(vfs.find_from_absolute_path(0, "/dev/"), None);
}

#[test]
fn absolute_paths_skip_the_root_name() {
    let mut vfs = Vfs::init();
    vfs.add_child_node(0, "dev");
    vfs.add_child_node(3, "fb0");
    assert_eq!(vfs.get_absolute_path(4), "/dev/fb0");
    assert_eq!(vfs.get_absolute_path(3), "/dev");
    assert_eq!(vfs.get_absolute_path(1), "/.");
}

#[test]
fn the_first_child_of_a_name_wins() {
    let mut vfs = Vfs::init();
    vfs.add_child_node(0, "tmp");
    vfs.add_child_node(0, "tmp");
    assert_eq!(vfs.find_child(0, "tmp"), Some(3));
    assert_eq!(vfs.find_child(1, "tmp"), None);
}

#[test]
fn a_relative_path_is_followed_from_the_given_node() {
    // Given "Desktop/someFolder" and the node "/home/user", the node at
    // "/home/user/Desktop/someFolder".
    let mut vfs = Vfs::init();
    vfs.add_child_node(0, "home");
    vfs.add_child_node(3, "user");
    vfs.add_child_node(4, "Desktop");
    vfs.add_child_node(5, "someFolder");
    assert_eq!(vfs.find_from_absolute_path(4, "Desktop/someFolder"), Some(6));
    assert_eq!(vfs.get_absolute_path(6), "/home/user/Desktop/someFolder");
    assert_eq!(vfs.find_from_absolute_path(0, ""), None);
}
