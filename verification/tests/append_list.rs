use wayland_commons::utils::AppendList;

#[test]
fn values_come_out_in_order() {
    let mut list = AppendList::new();
    assert!(list.iter().next().is_none());
    list.append(1);
    list.append(2);
    list.append(3);
    let mut it = list.iter();
    assert_eq!(it.next(), Some(&1));
    assert_eq!(it.next(), Some(&2));
    assert_eq!(it.next(), Some(&3));
    assert_eq!(it.next(), None);
    assert_eq!(it.next(), None);
}

#[test]
fn lists_are_appended_whole() {
    let mut a = AppendList::new();
    a.append("a");
    let mut b = AppendList::new();
    b.append("b");
    b.append("c");
    a.append_list(b);
    let mut it = a.iter();
    let mut out = Vec::new();
    while let Some(v) = it.next() {
        out.push(*v);
    }
    assert_eq!(out, vec!["a", "b", "c"]);
}
