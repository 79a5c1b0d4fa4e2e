use qarrot_optimizer::optimization::partitions::Partitions;

#[test]
fn test_basic() {
    let mut new = Partitions::new();
    new.init_one_per_t_gate(5);
    assert_eq!(new.len(), 5);
    assert_eq!(new.indexes(), &[0, 1, 2, 3, 4]);
    assert_eq!(new.boundaries(), &[0, 1, 2, 3, 4]);
    assert_eq!(new.partition(0), &[0]);
    assert_eq!(new.partition(1), &[1]);
    assert_eq!(new.partition(2), &[2]);
    assert_eq!(new.partition(3), &[3]);
    assert_eq!(new.partition(4), &[4]);
}

#[test]
fn test_init() {
    let mut new = Partitions::new();
    new.init(2, |_last_partition, _this_index| false);
    assert_eq!(new.len(), 1);
    assert_eq!(new.boundaries(), &[0]);
    assert_eq!(new.partition(0), &[0, 1]);

    let mut new = Partitions::new();
    new.init(3, |_last_partition, _this_index| false);
    assert_eq!(new.len(), 1);
    assert_eq!(new.boundaries(), &[0]);
    assert_eq!(new.partition(0), &[0, 1, 2]);

    let mut new = Partitions::new();
    new.init(3, |_last_partition: &[usize], this_index| this_index == 2);
    assert_eq!(new.len(), 2);
    assert_eq!(new.boundaries(), &[0, 2]);
    assert_eq!(new.partition(0), &[0, 1]);
    assert_eq!(new.partition(1), &[2]);
}

#[test]
fn test_swap_down_single() {
    let mut new = Partitions::new();
    new.init(3, |_last_partition: &[usize], this_index| this_index == 2);
    new.swap_down(|_, _| true);
    assert_eq!(new.len(), 1);
    assert_eq!(new.boundaries(), &[0]);
}

#[test]
fn test_swap_down_1_of_2() {
    let mut new = Partitions::new();
    new.init_one_per_t_gate(3);
    new.swap_down(|_, i| i == 2);
    assert_eq!(new.len(), 2);
    assert_eq!(new.boundaries(), &[0, 1]);
    new.swap_down(|_, _| true);
    assert_eq!(new.len(), 1);
    assert_eq!(new.boundaries(), &[0]);
}

#[test]
fn swap_down_reports_whether_an_index_moved() {
    let mut layers = Partitions::new();
    layers.init_one_per_t_gate(4);
    assert!(!layers.swap_down(|_, _| false));
    assert_eq!(layers.boundaries(), &[0, 1, 2, 3]);
    assert_eq!(layers.indexes(), &[0, 1, 2, 3]);
    assert!(layers.swap_down(|_, i| i == 3));
    assert_eq!(layers.len(), 3);
    assert_eq!(layers.partition(2), &[2, 3]);
    assert_eq!(layers.length_of_partition(2), 2);
}

#[test]
fn swap_down_sees_the_layer_below() {
    let mut layers = Partitions::new();
    layers.init_one_per_t_gate(3);
    let changed = layers.swap_down(|below, i| i == 1 && below == [0]);
    assert!(changed);
    assert_eq!(layers.len(), 2);
    assert_eq!(layers.partition(0), &[0, 1]);
    assert_eq!(layers.partition(1), &[2]);
}

#[test]
fn partitions_iterate_in_order() {
    let mut layers = Partitions::with_capacity(8);
    layers.init(5, |_, i| i % 2 == 0);
    let mut it = layers.iter();
    assert_eq!(it.remaining(), 3);
    assert_eq!(it.next(), Some(&[0usize, 1][..]));
    assert_eq!(it.next(), Some(&[2usize, 3][..]));
    assert_eq!(it.next(), Some(&[4usize][..]));
    assert_eq!(it.next(), None);
    assert_eq!(it.remaining(), 0);
    layers.clear();
    assert_eq!(layers.len(), 0);
    layers.init(0, |_, _| true);
    assert_eq!(layers.len(), 0);
}
