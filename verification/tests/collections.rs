use datakit::collections::int_list::IntList;
use datakit::collections::quad_tree::QuadTree;
use datakit::collections::raw_vec::RawVec;
use datakit::collections::trie::Trie;

#[test]
fn trie_test() {
    let str1 = String::from("aaa");
    let str2 = String::from("aaabb");
    let str3 = String::from("aabbb");

    let mut index_tree = Trie::new();
    index_tree.insert(str1.chars().collect(), 1);
    index_tree.insert(str2.chars().collect(), 2);
    assert_eq!(index_tree.get(&str1.chars().collect::<Vec<char>>()), Some(&1));
    index_tree.insert(str2.chars().collect(), 3);
    assert_eq!(index_tree.get(&str2.chars().collect::<Vec<char>>()), Some(&3));
    assert_eq!(index_tree.get(&str3.chars().collect::<Vec<char>>()), None);

    let teststr = String::from("aaabb aabbb");
    let res = index_tree.match_get(teststr.chars().collect());
    assert_eq!(res.0, Some(&3));
    let res1_collect: Vec<char> = res.2;
    assert_eq!(res1_collect, String::from(" aabbb").chars().collect::<Vec<char>>());
}

#[test]
fn trie_insert_returns_previous_and_remove_prunes() {
    let mut t: Trie<u8, i32> = Trie::new();
    assert!(t.is_true_empty());
    assert_eq!(t.insert(vec![1, 2], 5), None);
    assert_eq!(t.insert(vec![1, 2], 6), Some(5));
    assert_eq!(t.get(&[1]), None);
    assert_eq!(t.remove(vec![1, 2]), Some(6));
    assert_eq!(t.get(&[1, 2]), None);
    assert!(t.is_true_empty());
}

#[test]
fn trie_get_mut_writes_through() {
    let mut t: Trie<u8, i32> = Trie::new();
    t.insert(vec![1, 2], 5);
    t.insert(vec![1], 4);
    *t.get_mut(vec![1, 2]).unwrap() += 10;
    assert_eq!(t.get(&[1, 2]), Some(&15));
    assert_eq!(t.get(&[1]), Some(&4));
    assert!(t.get_mut(vec![2]).is_none());
    assert!(t.get_mut(vec![1, 2, 3]).is_none());
    let node = t.travel_mut(vec![1]).unwrap();
    node.insert(vec![7], 70);
    assert_eq!(t.get(&[1, 7]), Some(&70));
    assert!(t.travel_mut(vec![3]).is_none());
}

#[test]
fn it_works() {
    let mut list = IntList::<String>::new();
    list.add(12, String::from("val1"));
    list.add(6, String::from("val2"));
    list.add(8, String::from("dwawd"));
    println!("{0}", list.index(8).as_ref().unwrap());
    println!("{0}", list.index(12).as_ref().unwrap());
    list.remove(8);
    println!(
        "{0}",
        match list.index(8) {
            None => "none",
            Some(s) => &s,
        }
    );
    println!("{0}", list.index(12).as_ref().unwrap());
    assert!(list.index(8).is_none());
    assert_eq!(list.index(6).as_deref(), Some("val2"));
}

#[test]
fn quad_tree_layers_double() {
    let q = QuadTree::new(3, |layer: usize, x: usize, y: usize| layer * 100 + y * 10 + x);
    assert_eq!(q.get(2).values[1][3], 213);
    assert_eq!(q.get(2).values.len(), 4);
    assert_eq!(q.get(0).values[0][0], 0);
}

#[test]
fn raw_vec_growth_rule() {
    let mut v: RawVec<u32> = RawVec::new();
    v.grow(3);
    v.grow(4);
    v.try_grow(2);
    let w: RawVec<u32> = RawVec::with_capacity(5);
    let z: RawVec<()> = RawVec::new();
    let _ = (v, w, z);
}

#[test]
fn trie_remove_drops_emptied_nodes_on_path() {
    let mut t: Trie<u8, i32> = Trie::new();
    t.insert(vec![1, 2, 3], 7);
    t.insert(vec![1], 1);
    assert_eq!(t.remove(vec![1, 2, 3]), Some(7));
    assert!(t.travel(&[1, 2]).is_none());
    assert!(t.travel(&[1]).is_some());
    assert_eq!(t.get(&[1]), Some(&1));
}

#[test]
fn trie_travel_then_get_is_get() {
    let mut t: Trie<u8, i32> = Trie::new();
    t.insert(vec![4, 5, 6], 9);
    assert!(std::ptr::eq(t.travel(&[]).unwrap(), &t));
    let mid = t.travel(&[4]).unwrap();
    assert_eq!(mid.get(&[5, 6]), Some(&9));
    assert_eq!(t.travel(&[4, 5, 6]).unwrap().get(&[]), t.get(&[4, 5, 6]));
    assert!(t.travel(&[5]).is_none());
}

#[test]
fn trie_remove_prunes_a_node_left_empty_before() {
    let mut t: Trie<u8, i32> = Trie::new();
    t.insert(vec![3], 1);
    t.insert(vec![4], 2);
    assert_eq!(t.travel_mut(vec![3]).unwrap().remove(vec![]), Some(1));
    assert!(t.travel(&[3]).is_some());
    assert_eq!(t.remove(vec![3, 9]), None);
    assert!(t.travel(&[3]).is_none());
    assert_eq!(t.get(&[4]), Some(&2));
}
