use fsz::{FileInfo, Progress, Scan, SizeMode, Tree};

fn comps(path: &str) -> Vec<Vec<u8>> {
    if path.is_empty() {
        return Vec::new();
    }
    path.split('/').map(|c| c.as_bytes().to_vec()).collect()
}

fn file(ino: u64, apparent: u64, allocated: u64) -> Option<FileInfo> {
    Some(FileInfo { dev: 1, ino, apparent, allocated })
}

fn find(tree: &Tree, path: &str) -> usize {
    let want: Vec<Vec<u8>> = std::iter::once(b"root".to_vec()).chain(comps(path)).collect();
    (0..tree.nodes().len())
        .find(|&i| tree.path_of(i) == want)
        .expect("path is in the tree")
}

/// root/{a/{x,y}, b (hard link to a/x), c}
fn sample(mode: SizeMode) -> (Tree, Progress) {
    let mut scan = Scan::new(b"root".to_vec(), mode);
    scan.record(&comps(""), None);
    scan.record(&comps("a"), None);
    scan.record(&comps("a/x"), file(1, 100, 4096));
    scan.record(&comps("a/y"), file(2, 10, 4096));
    scan.record(&comps("b"), file(1, 100, 4096));
    let p = scan.record(&comps("c"), file(3, 5000, 8192));
    (scan.finish(), p)
}

#[test]
fn progress_counts_entries_and_deduplicated_bytes() {
    let (_, p) = sample(SizeMode::Allocated);
    assert_eq!(p.entries, 6);
    assert_eq!(p.bytes, 4096 + 4096 + 8192);
    let (_, p) = sample(SizeMode::Apparent);
    assert_eq!(p.bytes, 100 + 10 + 5000);
}

#[test]
fn root_total_equals_deduplicated_bytes() {
    let (tree, p) = sample(SizeMode::Allocated);
    assert_eq!(tree.nodes()[tree.root_idx()].total_size, p.bytes);
}

#[test]
fn hard_link_counted_once() {
    let (tree, _) = sample(SizeMode::Allocated);
    let b = find(&tree, "b");
    let x = find(&tree, "a/x");
    assert_eq!(tree.nodes()[b].own_allocated, 0);
    assert_eq!(tree.nodes()[b].total_size, 0);
    assert_eq!(tree.nodes()[x].own_allocated, 4096);
}

#[test]
fn directory_totals_sum_their_children() {
    let (tree, _) = sample(SizeMode::Allocated);
    let a = find(&tree, "a");
    assert_eq!(tree.nodes()[a].total_size, 8192);
    assert!(tree.nodes()[a].is_dir());
    assert!(!tree.nodes()[find(&tree, "c")].is_dir());
}

#[test]
fn children_listed_largest_first_ties_in_found_order() {
    let (tree, _) = sample(SizeMode::Allocated);
    let order = tree.children_by_size(tree.root_idx());
    let names: Vec<&[u8]> = order.iter().map(|&i| tree.nodes()[i].name.as_slice()).collect();
    assert_eq!(names, vec![&b"a"[..], &b"c"[..], &b"b"[..]]);
}

#[test]
fn children_by_size_in_apparent_mode() {
    let (tree, _) = sample(SizeMode::Apparent);
    let order = tree.children_by_size(tree.root_idx());
    let names: Vec<&[u8]> = order.iter().map(|&i| tree.nodes()[i].name.as_slice()).collect();
    assert_eq!(names, vec![&b"c"[..], &b"a"[..], &b"b"[..]]);
}

#[test]
fn path_of_reads_back_the_recorded_path() {
    let (tree, _) = sample(SizeMode::Allocated);
    let y = find(&tree, "a/y");
    assert_eq!(tree.path_of(y), vec![b"root".to_vec(), b"a".to_vec(), b"y".to_vec()]);
    assert_eq!(tree.path_of(tree.root_idx()), vec![b"root".to_vec()]);
}

#[test]
fn missing_ancestors_are_created_and_reused() {
    let mut scan = Scan::new(b"root".to_vec(), SizeMode::Apparent);
    scan.record(&comps("d/e/f"), file(7, 3, 4096));
    assert_eq!(scan.tree().nodes().len(), 4);
    scan.record(&comps("d"), None);
    scan.record(&comps("d/e"), None);
    assert_eq!(scan.tree().nodes().len(), 4);
    let tree = scan.finish();
    let d = find(&tree, "d");
    assert_eq!(tree.nodes()[d].total_size, 3);
    assert_eq!(tree.nodes()[d].parent, Some(0));
}

#[test]
fn toggle_mode_recomputes_and_round_trips() {
    let (mut tree, _) = sample(SizeMode::Allocated);
    assert_eq!(tree.mode(), SizeMode::Allocated);
    tree.toggle_mode();
    assert_eq!(tree.mode(), SizeMode::Apparent);
    let a = find(&tree, "a");
    assert_eq!(tree.nodes()[a].total_size, 110);
    assert_eq!(tree.nodes()[tree.root_idx()].total_size, 5110);
    tree.toggle_mode();
    assert_eq!(tree.mode(), SizeMode::Allocated);
    assert_eq!(tree.nodes()[a].total_size, 8192);
    assert_eq!(tree.nodes()[tree.root_idx()].total_size, 16384);
}

#[test]
fn delete_takes_size_off_ancestors() {
    let (mut tree, _) = sample(SizeMode::Allocated);
    let a = find(&tree, "a");
    let x = find(&tree, "a/x");
    let before = tree.nodes().len();
    tree.delete(x);
    assert_eq!(tree.nodes().len(), before);
    assert_eq!(tree.nodes()[a].total_size, 4096);
    assert_eq!(tree.nodes()[tree.root_idx()].total_size, 12288);
    assert!(!tree.nodes()[a].children.contains(&x));
    // The detached node keeps its own record.
    assert_eq!(tree.nodes()[x].total_size, 4096);
}

#[test]
fn delete_root_changes_nothing() {
    let (mut tree, _) = sample(SizeMode::Allocated);
    tree.delete(tree.root_idx());
    assert_eq!(tree.nodes()[tree.root_idx()].total_size, 16384);
    assert_eq!(tree.children_by_size(tree.root_idx()).len(), 3);
}

#[test]
fn mode_labels_and_toggling() {
    assert_eq!(SizeMode::Apparent.label(), "apparent");
    assert_eq!(SizeMode::Allocated.label(), "allocated");
    assert_eq!(SizeMode::Apparent.toggled(), SizeMode::Allocated);
    assert_eq!(SizeMode::Allocated.toggled().toggled(), SizeMode::Allocated);
    assert_eq!(SizeMode::default(), SizeMode::Allocated);
}

#[test]
fn progress_default_is_zero() {
    let p = Progress::default();
    assert_eq!(p.entries, 0);
    assert_eq!(p.bytes, 0);
}

fn all_paths(tree: &Tree) -> Vec<Vec<Vec<u8>>> {
    let mut paths: Vec<Vec<Vec<u8>>> = (0..tree.nodes().len()).map(|i| tree.path_of(i)).collect();
    paths.sort();
    paths
}

#[test]
fn record_order_does_not_change_paths_or_total() {
    let (forward, _) = sample(SizeMode::Allocated);
    let mut scan = Scan::new(b"root".to_vec(), SizeMode::Allocated);
    scan.record(&comps("c"), file(3, 5000, 8192));
    scan.record(&comps("b"), file(1, 100, 4096));
    scan.record(&comps("a/y"), file(2, 10, 4096));
    scan.record(&comps("a/x"), file(1, 100, 4096));
    scan.record(&comps("a"), None);
    scan.record(&comps(""), None);
    let backward = scan.finish();
    assert_eq!(forward.nodes().len(), backward.nodes().len());
    assert_eq!(all_paths(&forward), all_paths(&backward));
    assert_eq!(
        forward.nodes()[forward.root_idx()].total_size,
        backward.nodes()[backward.root_idx()].total_size
    );
}

#[test]
fn toggling_equals_scanning_in_the_other_mode() {
    let (mut toggled, _) = sample(SizeMode::Allocated);
    toggled.toggle_mode();
    let (rescanned, _) = sample(SizeMode::Apparent);
    assert_eq!(toggled.mode(), rescanned.mode());
    assert_eq!(toggled.nodes().len(), rescanned.nodes().len());
    for i in 0..toggled.nodes().len() {
        assert_eq!(toggled.nodes()[i].total_size, rescanned.nodes()[i].total_size);
        assert_eq!(toggled.nodes()[i].name, rescanned.nodes()[i].name);
    }
}

#[test]
fn recording_a_known_path_adds_nothing() {
    let mut scan = Scan::new(b"root".to_vec(), SizeMode::Apparent);
    scan.record(&comps("a/b"), None);
    let before: Vec<Vec<usize>> = scan.tree().nodes().iter().map(|n| n.children.clone()).collect();
    scan.record(&comps("a"), None);
    scan.record(&comps("a/b"), None);
    let after: Vec<Vec<usize>> = scan.tree().nodes().iter().map(|n| n.children.clone()).collect();
    assert_eq!(before, after);
}

#[test]
fn new_entry_adds_one_leaf_under_its_parent() {
    let mut scan = Scan::new(b"root".to_vec(), SizeMode::Apparent);
    scan.record(&comps("a"), None);
    scan.record(&comps("a/b"), file(4, 7, 4096));
    let tree = scan.finish();
    assert_eq!(tree.nodes().len(), 3);
    let a = find(&tree, "a");
    let b = find(&tree, "a/b");
    assert_eq!(tree.nodes()[a].children, vec![b]);
    assert!(tree.nodes()[b].children.is_empty());
    assert_eq!(tree.nodes()[b].parent, Some(a));
}

#[test]
fn second_link_of_a_file_keeps_no_size() {
    let mut scan = Scan::new(b"root".to_vec(), SizeMode::Allocated);
    scan.record(&comps("x"), file(9, 10, 4096));
    scan.record(&comps("y"), file(9, 10, 4096));
    let tree = scan.finish();
    let y = find(&tree, "y");
    assert_eq!(tree.nodes()[y].own_apparent, 0);
    assert_eq!(tree.nodes()[y].own_allocated, 0);
    assert_eq!(tree.nodes()[tree.root_idx()].total_size, 4096);
}
