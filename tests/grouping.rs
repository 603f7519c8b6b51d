use dupe_finder::bitwise::GroupCheck;
use dupe_finder::file_hash::{fnv_update, head_signature, FastSamples, HashResult, FNV_OFFSET};
use dupe_finder::grouper::FileList;

fn seed_list(files: &[(&str, &[u8])]) -> FileList {
    let mut list = FileList::new();
    for (path, content) in files {
        list.add(path.to_string(), content.len() as u64);
    }
    list
}

fn live(list: &FileList) -> Vec<bool> {
    let mut alive = vec![false; list.file_count()];
    for g in list.records() {
        for r in g {
            alive[r.index] = true;
        }
    }
    alive
}

enum Kind {
    Length,
    Head(usize),
    Fast,
    FnvFull,
}

fn hashes(list: &FileList, contents: &[Option<&[u8]>], kind: &Kind) -> Vec<Option<HashResult>> {
    let alive = live(list);
    (0..list.file_count())
        .map(|x| {
            if !alive[x] {
                return None;
            }
            let c = contents[x]?;
            Some(match kind {
                Kind::Length => HashResult::Length(c.len() as u64),
                Kind::Head(n) => head_signature(&c[..c.len().min(*n)], *n),
                Kind::Fast => {
                    let t = FastSamples::default();
                    HashResult::Fast(t.offsets(c.len() as u64).iter().map(|&o| c[o as usize]).collect())
                }
                Kind::FnvFull => HashResult::Fnv(fnv_update(FNV_OFFSET, c)),
            })
        })
        .collect()
}

fn split(list: FileList, contents: &[Option<&[u8]>], kind: Kind) -> FileList {
    let h = hashes(&list, contents, &kind);
    list.split_by_hash(h)
}

fn confirm(list: FileList, contents: &[&[u8]]) -> (FileList, usize) {
    let mut c = list.bitwise_compare();
    let mut comparisons = 0;
    while let Some((x, y)) = c.next_pair() {
        comparisons += 1;
        c.record(contents[x] == contents[y]);
    }
    (c.finish(), comparisons)
}

fn paths(list: &FileList) -> Vec<Vec<String>> {
    list.records()
        .iter()
        .map(|g| g.iter().map(|r| list.info(r.index).path.clone()).collect())
        .collect()
}

fn indices(list: &FileList) -> Vec<Vec<usize>> {
    list.records().iter().map(|g| g.iter().map(|r| r.index).collect()).collect()
}

fn all_stages(list: FileList, contents: &[Option<&[u8]>]) -> FileList {
    let list = split(list, contents, Kind::Length);
    let list = split(list, contents, Kind::Head(512));
    let list = split(list, contents, Kind::Fast);
    split(list, contents, Kind::FnvFull)
}

#[test]
fn add_puts_files_in_one_seed_group() {
    let list = seed_list(&[("a", b"1"), ("b", b"22"), ("c", b"333")]);
    assert_eq!(list.len(), 1);
    assert_eq!(indices(&list), vec![vec![0, 1, 2]]);
    assert_eq!(list.info(1).len, 2);
    assert_eq!(list.info(2).hash, HashResult::Length(3));
    for (k, r) in list.records()[0].iter().enumerate() {
        assert_eq!(r.id, k);
    }
}

#[test]
fn two_identical_files_stay_together() {
    let a: &[u8] = b"0123456789";
    let b: &[u8] = b"0123456789";
    let contents = [Some(a), Some(b)];
    let list = all_stages(seed_list(&[("a.txt", a), ("b.txt", b)]), &contents);
    assert_eq!(paths(&list), vec![vec!["a.txt".to_string(), "b.txt".to_string()]]);
    let (list, n) = confirm(list, &[a, b]);
    assert_eq!(n, 1);
    assert_eq!(paths(&list), vec![vec!["a.txt".to_string(), "b.txt".to_string()]]);
}

#[test]
fn differing_last_byte_separated_by_full_prefix() {
    let a: &[u8] = b"abcdefghij";
    let b: &[u8] = b"abcdefghiX";
    let contents = [Some(a), Some(b)];
    let list = split(seed_list(&[("a", a), ("b", b)]), &contents, Kind::Length);
    assert_eq!(list.len(), 1);
    let list = split(list, &contents, Kind::Head(10));
    assert_eq!(list.len(), 0);
}

#[test]
fn confirmation_separates_what_signatures_missed() {
    let a: &[u8] = b"abcdefghij";
    let b: &[u8] = b"abcdefghiX";
    let contents = [Some(a), Some(b)];
    // a prefix of 4 bytes cannot tell them apart
    let list = split(seed_list(&[("a", a), ("b", b)]), &contents, Kind::Head(4));
    assert_eq!(list.len(), 1);
    let (list, _) = confirm(list, &[a, b]);
    assert_eq!(list.len(), 0);
}

#[test]
fn three_files_two_identical() {
    let a: &[u8] = b"same-content";
    let b: &[u8] = b"same-content";
    let c: &[u8] = b"diff-content";
    let list = seed_list(&[("A", a), ("B", b), ("C", c)]);
    let (list, _) = confirm(list, &[a, b, c]);
    assert_eq!(paths(&list), vec![vec!["A".to_string(), "B".to_string()]]);
}

#[test]
fn vanished_file_is_dropped() {
    let a: &[u8] = b"xyz";
    let b: &[u8] = b"xyz";
    let list = seed_list(&[("a", a), ("b", b)]);
    let list = split(list, &[Some(a), Some(b)], Kind::Length);
    assert_eq!(list.len(), 1);
    // "b" can no longer be read: its group falls to one member and goes
    let list = split(list, &[Some(a), None], Kind::Head(3));
    assert_eq!(list.len(), 0);
}

#[test]
fn vanished_file_leaves_the_rest() {
    let a: &[u8] = b"xyz";
    let list = seed_list(&[("a", a), ("b", a), ("c", a)]);
    let list = split(list, &[Some(a), None, Some(a)], Kind::Length);
    assert_eq!(indices(&list), vec![vec![0, 2]]);
    assert_eq!(list.records()[0][1].id, 1);
}

#[test]
fn split_orders_classes_by_first_appearance() {
    let contents: Vec<&[u8]> = vec![b"bb", b"a", b"bb", b"a", b"ccc"];
    let opt: Vec<Option<&[u8]>> = contents.iter().map(|c| Some(*c)).collect();
    let list = seed_list(&[("0", b"bb"), ("1", b"a"), ("2", b"bb"), ("3", b"a"), ("4", b"ccc")]);
    let list = split(list, &opt, Kind::Length);
    assert_eq!(indices(&list), vec![vec![0, 2], vec![1, 3]]);
    let list = split(list, &opt, Kind::Head(2));
    assert_eq!(indices(&list), vec![vec![0, 2], vec![1, 3]]);
}

#[test]
fn split_is_idempotent() {
    let contents: Vec<&[u8]> = vec![b"aa", b"ab", b"aa", b"ab", b"ac", b"aa"];
    let opt: Vec<Option<&[u8]>> = contents.iter().map(|c| Some(*c)).collect();
    let list = seed_list(&[("0", b"aa"), ("1", b"ab"), ("2", b"aa"), ("3", b"ab"), ("4", b"ac"), ("5", b"aa")]);
    let once = split(list, &opt, Kind::Head(2));
    let first = indices(&once);
    assert_eq!(first, vec![vec![0, 2, 5], vec![1, 3]]);
    let twice = split(once, &opt, Kind::Head(2));
    assert_eq!(indices(&twice), first);
}

#[test]
fn split_never_reunites_separated_files() {
    let contents: Vec<&[u8]> = vec![b"xa", b"ya", b"xa", b"ya"];
    let opt: Vec<Option<&[u8]>> = contents.iter().map(|c| Some(*c)).collect();
    let list = seed_list(&[("0", b"xa"), ("1", b"ya"), ("2", b"xa"), ("3", b"ya")]);
    let list = split(list, &opt, Kind::Head(1));
    assert_eq!(indices(&list), vec![vec![0, 2], vec![1, 3]]);
    // the second byte is equal for all four, yet the groups stay apart
    let h: Vec<Option<HashResult>> = (0..4).map(|_| Some(HashResult::Head(vec![b'a']))).collect();
    let list = list.split_by_hash(h);
    assert_eq!(indices(&list), vec![vec![0, 2], vec![1, 3]]);
}

#[test]
fn every_group_has_two_members() {
    let contents: Vec<&[u8]> = vec![b"a", b"bb", b"a", b"ccc", b"dd", b"eee", b"f"];
    let opt: Vec<Option<&[u8]>> = contents.iter().map(|c| Some(*c)).collect();
    let names = ["0", "1", "2", "3", "4", "5", "6"];
    let files: Vec<(&str, &[u8])> = names.iter().zip(contents.iter()).map(|(n, c)| (*n, *c)).collect();
    let list = split(seed_list(&files), &opt, Kind::Length);
    assert_eq!(list.len(), 3);
    assert!(list.records().iter().all(|g| g.len() >= 2));
    let (list, _) = confirm(list, &contents);
    assert!(list.records().iter().all(|g| g.len() >= 2));
    assert_eq!(indices(&list), vec![vec![0, 2]]);
}

#[test]
fn confirm_never_merges_different_files() {
    let contents: Vec<&[u8]> = vec![b"p", b"q", b"p", b"r", b"q", b"p"];
    let list = seed_list(&[("0", b"p"), ("1", b"q"), ("2", b"p"), ("3", b"r"), ("4", b"q"), ("5", b"p")]);
    let (list, _) = confirm(list, &contents);
    assert_eq!(indices(&list), vec![vec![0, 2, 5], vec![1, 4]]);
    for g in list.records() {
        for r in g {
            assert_eq!(contents[r.index], contents[g[0].index]);
        }
    }
}

#[test]
fn confirm_keeps_identical_group_whole() {
    let contents: Vec<&[u8]> = vec![b"z"; 5];
    let list = seed_list(&[("0", b"z"), ("1", b"z"), ("2", b"z"), ("3", b"z"), ("4", b"z")]);
    let (list, n) = confirm(list, &contents);
    assert_eq!(indices(&list), vec![vec![0, 1, 2, 3, 4]]);
    // the first member is compared with each other one, and nothing more
    assert_eq!(n, 4);
}

#[test]
fn confirm_skips_merged_members() {
    // 0 == 2, 1 == 3: pairs (0,1) (0,2) (0,3) then (1,3) only
    let contents: Vec<&[u8]> = vec![b"a", b"b", b"a", b"b"];
    let list = seed_list(&[("0", b"a"), ("1", b"b"), ("2", b"a"), ("3", b"b")]);
    let mut c = list.bitwise_compare();
    let mut asked = Vec::new();
    while let Some((x, y)) = c.next_pair() {
        asked.push((x, y));
        c.record(contents[x] == contents[y]);
    }
    assert_eq!(asked, vec![(0, 1), (0, 2), (0, 3), (1, 3)]);
    let list = c.finish();
    assert_eq!(indices(&list), vec![vec![0, 2], vec![1, 3]]);
}

#[test]
fn confirm_of_empty_list() {
    let list = FileList::new();
    let c = list.bitwise_compare();
    assert_eq!(c.next_pair(), None);
    assert_eq!(c.finish().len(), 0);
}

#[test]
fn group_check_by_local_ids() {
    let mut g = GroupCheck::new(3);
    assert_eq!(g.next_pair(), Some((0, 1)));
    g.record(false);
    assert_eq!(g.next_pair(), Some((0, 2)));
    g.record(true);
    // member 2 joined member 0, so member 1 has no one left to compare with
    assert_eq!(g.next_pair(), None);
}

#[test]
fn group_check_of_one_member_is_done() {
    assert_eq!(GroupCheck::new(1).next_pair(), None);
    assert_eq!(GroupCheck::new(0).next_pair(), None);
}

#[test]
fn duplicates_are_all_but_the_first() {
    let contents: Vec<&[u8]> = vec![b"a", b"b", b"a", b"b", b"a"];
    let list = seed_list(&[("0", b"a"), ("1", b"b"), ("2", b"a"), ("3", b"b"), ("4", b"a")]);
    let (list, _) = confirm(list, &contents);
    assert_eq!(list.duplicates(), vec![2, 4, 3]);
}

#[test]
fn summary_counts() {
    let contents: Vec<&[u8]> = vec![b"aaaa", b"bb", b"aaaa", b"bb", b"aaaa"];
    let opt: Vec<Option<&[u8]>> = contents.iter().map(|c| Some(*c)).collect();
    let list = seed_list(&[("0", b"aaaa"), ("1", b"bb"), ("2", b"aaaa"), ("3", b"bb"), ("4", b"aaaa")]);
    let s = list.summary();
    assert_eq!((s.groups, s.candidates, s.redundant_bytes), (1, 5, 2 + 4 + 2 + 4));
    let list = split(list, &opt, Kind::Length);
    let s = list.summary();
    assert_eq!((s.groups, s.candidates, s.redundant_bytes), (2, 5, 4 + 4 + 2));
}

#[test]
fn confirmation_names_files_by_index() {
    let list = seed_list(&[("first", b"q"), ("second", b"q")]);
    let c = list.bitwise_compare();
    assert_eq!(c.next_pair(), Some((0, 1)));
    assert_eq!(c.info(0).path, "first");
    assert_eq!(c.info(1).path, "second");
    assert_eq!(c.info(1).len, 1);
}

#[test]
fn summary_of_empty_list() {
    let s = FileList::new().summary();
    assert_eq!((s.groups, s.candidates, s.redundant_bytes), (0, 0, 0));
}

#[test]
fn split_of_single_file_drops_it() {
    let a: &[u8] = b"only";
    let list = split(seed_list(&[("a", a)]), &[Some(a)], Kind::Length);
    assert_eq!(list.len(), 0);
    assert_eq!(list.file_count(), 1);
}
