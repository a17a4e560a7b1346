use rque::data_storage::Group;

fn item(parts: &[&str]) -> Vec<String> {
    parts.iter().map(|s| s.to_string()).collect()
}

fn numbered(n: usize) -> Group {
    let mut g = Group::new();
    for i in 0..n {
        assert!(g.add(item(&[&format!("h{}", i)])));
    }
    g
}

fn heads(items: &[Vec<String>]) -> Vec<String> {
    items.iter().map(|v| v[0].clone()).collect()
}

#[test]
fn new_group_is_empty() {
    let g = Group::new();
    assert_eq!(g.get_size(), 0);
    assert!(g.is_empty());
    assert!(!g.index_exists(0));
}

#[test]
fn add_appends_valid_items() {
    let mut g = Group::new();
    assert!(g.add(item(&["thing1"])));
    assert!(g.add(item(&["thing2", "bonus"])));
    assert_eq!(g.get_size(), 2);
    assert!(!g.is_empty());
    assert_eq!(g.get(0), item(&["thing1"]));
    assert_eq!(g.get(1), item(&["thing2", "bonus"]));
}

#[test]
fn add_refuses_empty_item() {
    let mut g = Group::new();
    assert!(!g.add(Vec::new()));
    assert_eq!(g.get_size(), 0);
}

#[test]
fn add_refuses_taken_head() {
    let mut g = Group::new();
    assert!(g.add(item(&["head", "data"])));
    assert!(!g.add(item(&["head", "other"])));
    assert!(!g.add(item(&["head"])));
    assert_eq!(g.data, vec![item(&["head", "data"])]);
}

#[test]
fn has_head_finds_heads_only() {
    let mut g = Group::new();
    assert!(!g.has_head(&"a".to_string()));
    g.add(item(&["a", "b"]));
    assert!(g.has_head(&"a".to_string()));
    assert!(!g.has_head(&"b".to_string()));
}

#[test]
fn index_exists_bounds() {
    let g = numbered(3);
    assert!(g.index_exists(0));
    assert!(g.index_exists(2));
    assert!(!g.index_exists(3));
    assert!(!g.index_exists(usize::MAX));
}

#[test]
fn get_out_of_range_is_empty() {
    let g = numbered(2);
    assert_eq!(g.get(2), Vec::<String>::new());
}

#[test]
fn kick_removes_and_returns() {
    let mut g = numbered(3);
    let before = g.get(1);
    assert_eq!(g.kick(1), before);
    assert_eq!(heads(&g.data), item(&["h0", "h2"]));
    assert_eq!(g.kick(5), Vec::<String>::new());
    assert_eq!(g.get_size(), 2);
}

#[test]
fn range_index_and_quantity() {
    // DELETE /d/queue1/3/2 takes items no. 3 and 4
    let mut g = numbered(7);
    let slice = g.get_range(3, 2, true);
    assert_eq!(heads(&slice), item(&["h3", "h4"]));
    assert_eq!(heads(&g.data), item(&["h0", "h1", "h2", "h5", "h6"]));
}

#[test]
fn range_zero_quantity_takes_the_rest() {
    // DELETE /d/stack/4/0 leaves items 0, 1, 2 and 3
    let mut g = numbered(7);
    let slice = g.get_range(4, 0, true);
    assert_eq!(heads(&slice), item(&["h4", "h5", "h6"]));
    assert_eq!(heads(&g.data), item(&["h0", "h1", "h2", "h3"]));
}

#[test]
fn range_zero_zero_reads_everything() {
    // GET /r/users/0/0 gets all items
    let mut g = numbered(4);
    let slice = g.get_range(0, 0, false);
    assert_eq!(heads(&slice), item(&["h0", "h1", "h2", "h3"]));
    assert_eq!(g.get_size(), 4);
}

#[test]
fn range_quantity_past_the_end() {
    let mut g = numbered(4);
    let slice = g.get_range(2, 10, false);
    assert_eq!(heads(&slice), item(&["h2", "h3"]));
    let taken = g.get_range(2, 10, true);
    assert_eq!(heads(&taken), item(&["h2", "h3"]));
    assert_eq!(heads(&g.data), item(&["h0", "h1"]));
}

#[test]
fn range_bad_index_is_empty() {
    let mut g = numbered(3);
    assert!(g.get_range(3, 1, false).is_empty());
    assert!(g.get_range(3, 1, true).is_empty());
    assert_eq!(g.get_size(), 3);
}

#[test]
fn range_stops_at_empty_item() {
    let mut g = Group { data: vec![item(&["a"]), Vec::new(), item(&["c"])] };
    let read = g.get_range(0, 0, false);
    assert_eq!(read, vec![item(&["a"])]);
    assert_eq!(g.get_size(), 3);
    let taken = g.get_range(0, 0, true);
    assert_eq!(taken, vec![item(&["a"])]);
    // the empty item that ended the read leaves too
    assert_eq!(g.data, vec![item(&["c"])]);
}

#[test]
fn steal_returns_what_a_read_returns() {
    let mut a = numbered(6);
    let mut b = numbered(6);
    let read = a.get_range(1, 3, false);
    let taken = b.get_range(1, 3, true);
    assert_eq!(read, taken);
    assert_eq!(a.get_size(), 6);
    assert_eq!(b.get_size(), 3);
}

#[test]
fn heads_stay_unique_after_add() {
    let mut g = Group::new();
    assert!(g.add(item(&["x", "1"])));
    assert!(!g.add(item(&["x", "2"])));
    assert!(g.add(item(&["y"])));
    assert_eq!(heads(&g.data), item(&["x", "y"]));
}
