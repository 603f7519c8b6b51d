use dupe_finder::file_hash::HashResult;
use dupe_finder::grouper::FileList;
use dupe_finder::order::{chars_of, lex_le_exec, sorted_order};

fn chars(s: &str) -> Vec<char> {
    s.chars().collect()
}

#[test]
fn chars_of_keeps_every_character() {
    assert_eq!(chars_of("a/é/z"), vec!['a', '/', 'é', '/', 'z']);
    assert_eq!(chars_of(""), Vec::<char>::new());
}

#[test]
fn lexicographic_comparison() {
    assert!(lex_le_exec(&chars("abc"), &chars("abd")));
    assert!(!lex_le_exec(&chars("abd"), &chars("abc")));
    assert!(lex_le_exec(&chars("ab"), &chars("abc")));
    assert!(!lex_le_exec(&chars("abc"), &chars("ab")));
    assert!(lex_le_exec(&chars("same"), &chars("same")));
    assert!(lex_le_exec(&chars(""), &chars("")));
    assert!(lex_le_exec(&chars("Z"), &chars("a")));
}

#[test]
fn sorted_order_of_repeated_keys() {
    let keys = vec![chars("b"), chars("a"), chars("b"), chars("a")];
    assert_eq!(sorted_order(&keys), vec![1, 3, 0, 2]);
    assert_eq!(sorted_order(&Vec::new()), Vec::<usize>::new());
}

#[test]
fn sort_by_path_orders_members() {
    let mut list = FileList::new();
    for p in ["./c", "./a", "./b"] {
        list.add(p.to_string(), 1);
    }
    let list = list.sort_by_path();
    let paths: Vec<String> = list.records()[0].iter().map(|r| list.info(r.index).path.clone()).collect();
    assert_eq!(paths, vec!["./a", "./b", "./c"]);
    for (k, r) in list.records()[0].iter().enumerate() {
        assert_eq!(r.id, k);
    }
}

#[test]
fn sort_by_path_orders_groups_by_first_path() {
    let mut list = FileList::new();
    for p in ["z1", "b1", "z2", "b2"] {
        list.add(p.to_string(), 1);
    }
    // files 0 and 2 share a signature, so do 1 and 3
    let h = vec![
        Some(HashResult::Fnv(1)),
        Some(HashResult::Fnv(2)),
        Some(HashResult::Fnv(1)),
        Some(HashResult::Fnv(2)),
    ];
    let list = list.split_by_hash(h);
    let before: Vec<Vec<usize>> = list.records().iter().map(|g| g.iter().map(|r| r.index).collect()).collect();
    assert_eq!(before, vec![vec![0, 2], vec![1, 3]]);
    let list = list.sort_by_path();
    let after: Vec<Vec<usize>> = list.records().iter().map(|g| g.iter().map(|r| r.index).collect()).collect();
    assert_eq!(after, vec![vec![1, 3], vec![0, 2]]);
}
