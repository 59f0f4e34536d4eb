use dedup::allocators::Slab;

#[test]
fn slab_places_nodes_one_behind_the_other() {
    let mut slab: Slab<u32> = Slab::new();
    assert_eq!(0, slab.len());
    assert_eq!(0, slab.next(10));
    assert_eq!(1, slab.next(20));
    assert_eq!(2, slab.next(30));
    assert_eq!(3, slab.len());
    assert_eq!(&10, slab.get(0));
    assert_eq!(&20, slab.get(1));
    assert_eq!(&30, slab.get(2));
}

#[test]
fn slab_node_changes_in_place() {
    let mut slab: Slab<Vec<u8>> = Slab::new();
    slab.next(vec![1]);
    slab.next(vec![2]);
    slab.get_mut(0).push(9);
    *slab.get_mut(1) = vec![7, 7];
    assert_eq!(&vec![1, 9], slab.get(0));
    assert_eq!(&vec![7, 7], slab.get(1));
    assert_eq!(2, slab.len());
}
