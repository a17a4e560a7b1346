use rque::data_storage::{Group, Storage};
use rque::globals::{Failure, Fault};
use rque::routes::{
    delete_all, delete_group, delete_index, delete_range, get_group, get_group_size, get_index,
    get_names, get_range, get_status, post_group_addmul, post_group_addone,
};

fn item(parts: &[&str]) -> Vec<String> {
    parts.iter().map(|s| s.to_string()).collect()
}

fn fail(status: u16, fault: Fault) -> Failure {
    Failure { status, fault }
}

fn with_group(name: &str, n: usize) -> Storage {
    let mut s = Storage::new();
    for i in 0..n {
        post_group_addone(&mut s, true, name.to_string(), item(&[&format!("h{}", i)])).unwrap();
    }
    s
}

fn heads(items: &[Vec<String>]) -> Vec<String> {
    items.iter().map(|v| v[0].clone()).collect()
}

#[test]
fn new_storage_is_empty() {
    let s = Storage::new();
    assert_eq!(s.get_size(), 0);
    assert!(s.is_empty());
}

#[test]
fn status_route() {
    assert_eq!(get_status(true), 200);
    assert_eq!(get_status(false), 401);
}

#[test]
fn unauthorized_requests_are_refused() {
    let mut s = with_group("q", 2);
    let name = "q".to_string();
    let no = fail(401, Fault::Unauthorized);
    assert_eq!(get_names(&s, false).err(), Some(no));
    assert_eq!(get_group(&s, false, &name).err(), Some(no));
    assert_eq!(get_group_size(&s, false, &name), Err(no));
    assert_eq!(get_index(&s, false, &name, 0), Err(no));
    assert_eq!(get_range(&mut s, false, &name, 0, 0), Err(no));
    assert_eq!(post_group_addone(&mut s, false, name.clone(), item(&["z"])), Err(no));
    assert_eq!(post_group_addmul(&mut s, false, name.clone(), vec![item(&["z"])], false).err(), Some(no));
    assert_eq!(delete_index(&mut s, false, &name, 0), Err(no));
    assert_eq!(delete_range(&mut s, false, &name, 0, 0), Err(no));
    assert_eq!(delete_group(&mut s, false, &name), Err(no));
    assert_eq!(delete_all(&mut s, false), Err(no));
    assert_eq!(get_group_size(&s, true, &name), Ok((200, 2)));
}

#[test]
fn add_one_creates_then_appends() {
    let mut s = Storage::new();
    assert_eq!(post_group_addone(&mut s, true, "q".to_string(), item(&["a", "1"])), Ok(true));
    assert_eq!(post_group_addone(&mut s, true, "q".to_string(), item(&["b"])), Ok(false));
    assert_eq!(s.get_size(), 1);
    let q = s.group(&"q".to_string()).unwrap();
    assert_eq!(q.data, vec![item(&["a", "1"]), item(&["b"])]);
}

#[test]
fn add_one_refuses_bad_items() {
    let mut s = with_group("q", 1);
    assert_eq!(
        post_group_addone(&mut s, true, "q".to_string(), Vec::new()),
        Err(fail(403, Fault::ItemNotValid))
    );
    assert_eq!(
        post_group_addone(&mut s, true, "q".to_string(), item(&["h0", "again"])),
        Err(fail(403, Fault::ItemNotValid))
    );
    assert_eq!(
        post_group_addone(&mut s, true, "new".to_string(), Vec::new()),
        Err(fail(403, Fault::ItemNotValid))
    );
    assert!(!s.contains_group(&"new".to_string()));
    assert_eq!(get_group_size(&s, true, &"q".to_string()), Ok((200, 1)));
}

#[test]
fn read_gives_back_what_was_added() {
    let mut s = Storage::new();
    post_group_addone(&mut s, true, "q".to_string(), item(&["a", "x", "y"])).unwrap();
    post_group_addone(&mut s, true, "q".to_string(), item(&["b"])).unwrap();
    assert_eq!(get_index(&s, true, &"q".to_string(), 0), Ok(item(&["a", "x", "y"])));
    assert_eq!(get_index(&s, true, &"q".to_string(), 1), Ok(item(&["b"])));
}

#[test]
fn names_lists_each_group_once() {
    let mut s = Storage::new();
    assert_eq!(get_names(&s, true).err(), Some(fail(404, Fault::ZeroGroups)));
    post_group_addone(&mut s, true, "b".to_string(), item(&["1"])).unwrap();
    post_group_addone(&mut s, true, "a".to_string(), item(&["1"])).unwrap();
    post_group_addone(&mut s, true, "b".to_string(), item(&["2"])).unwrap();
    let mut names = get_names(&s, true).ok().unwrap();
    names.sort();
    assert_eq!(names, item(&["a", "b"]));
    assert_eq!(s.names().len(), s.get_size());
}

#[test]
fn get_group_answers() {
    let mut s = Storage::new();
    let q = "q".to_string();
    assert_eq!(get_group(&s, true, &q).err(), Some(fail(403, Fault::ZeroGroups)));
    post_group_addone(&mut s, true, "other".to_string(), item(&["1"])).unwrap();
    assert_eq!(get_group(&s, true, &q).err(), Some(fail(404, Fault::GroupNotFound)));
    post_group_addone(&mut s, true, q.clone(), item(&["a"])).unwrap();
    post_group_addone(&mut s, true, q.clone(), item(&["b", "c"])).unwrap();
    let listing = get_group(&s, true, &q).ok().unwrap();
    assert_eq!(listing.status, 200);
    assert_eq!(listing.items, vec![item(&["a"]), item(&["b", "c"])]);
}

#[test]
fn add_mul_all_refused_leaves_no_group() {
    let mut s = with_group("q", 1);
    let e = "e".to_string();
    assert_eq!(
        post_group_addmul(&mut s, true, e.clone(), vec![Vec::new(), Vec::new()], true).err(),
        Some(fail(400, Fault::AllInvalid))
    );
    assert!(!s.contains_group(&e));
    assert_eq!(get_group(&s, true, &e).err(), Some(fail(404, Fault::GroupNotFound)));
    // refused on an existing group: the group stays as it was
    assert_eq!(
        post_group_addmul(&mut s, true, "q".to_string(), vec![item(&["h0"])], true).err(),
        Some(fail(400, Fault::AllInvalid))
    );
    assert_eq!(get_group_size(&s, true, &"q".to_string()), Ok((200, 1)));
}

#[test]
fn empty_group_answers_206() {
    let mut s = Storage::new();
    let e = "e".to_string();
    s.insert_group(e.clone(), Group::new());
    let listing = get_group(&s, true, &e).ok().unwrap();
    assert_eq!(listing.status, 206);
    assert!(listing.items.is_empty());
    assert_eq!(get_group_size(&s, true, &e), Ok((206, 0)));
    assert_eq!(get_index(&s, true, &e, 0), Err(fail(403, Fault::GroupEmpty)));
    assert_eq!(get_range(&mut s, true, &e, 0, 0), Err(fail(403, Fault::GroupEmpty)));
    assert_eq!(delete_index(&mut s, true, &e, 0), Err(fail(403, Fault::GroupEmpty)));
    assert_eq!(delete_range(&mut s, true, &e, 0, 0), Err(fail(403, Fault::GroupEmpty)));
}

#[test]
fn get_group_size_answers() {
    let s = with_group("q", 3);
    assert_eq!(get_group_size(&s, true, &"q".to_string()), Ok((200, 3)));
    assert_eq!(get_group_size(&s, true, &"x".to_string()), Err(fail(404, Fault::GroupNotFound)));
    let empty = Storage::new();
    assert_eq!(get_group_size(&empty, true, &"q".to_string()), Err(fail(403, Fault::ZeroGroups)));
}

#[test]
fn get_index_answers() {
    let s = with_group("q", 2);
    let q = "q".to_string();
    assert_eq!(get_index(&s, true, &q, 1), Ok(item(&["h1"])));
    assert_eq!(get_index(&s, true, &q, 2), Err(fail(404, Fault::ItemNotFound)));
    assert_eq!(get_index(&s, true, &"x".to_string(), 0), Err(fail(403, Fault::GroupNotFound)));
    let empty = Storage::new();
    assert_eq!(get_index(&empty, true, &q, 0), Err(fail(403, Fault::ZeroGroups)));
}

#[test]
fn get_range_answers() {
    let mut s = with_group("q", 5);
    let q = "q".to_string();
    let slice = get_range(&mut s, true, &q, 1, 2).unwrap();
    assert_eq!(heads(&slice), item(&["h1", "h2"]));
    let all = get_range(&mut s, true, &q, 0, 0).unwrap();
    assert_eq!(all.len(), 5);
    assert_eq!(get_range(&mut s, true, &q, 5, 1), Err(fail(400, Fault::Slice)));
    assert_eq!(get_range(&mut s, true, &"x".to_string(), 0, 1), Err(fail(403, Fault::GroupNotFound)));
    assert_eq!(get_group_size(&s, true, &q), Ok((200, 5)));
    let mut empty = Storage::new();
    assert_eq!(get_range(&mut empty, true, &q, 0, 0), Err(fail(403, Fault::ZeroGroups)));
}

#[test]
fn add_mul_partial_success() {
    let mut s = with_group("q", 1);
    let report = post_group_addmul(
        &mut s,
        true,
        "q".to_string(),
        vec![item(&["a"]), item(&["h0"]), Vec::new(), item(&["b", "x"]), item(&["a", "dup"])],
        true,
    )
    .ok()
    .unwrap();
    assert_eq!(report.status, 206);
    assert!(!report.newgroup);
    assert_eq!(report.accepted, vec![true, false, false, true, false]);
    assert_eq!(report.details, Some(vec![true, false, false, true, false]));
    assert_eq!(report.items_succ, 2);
    assert_eq!(report.items_fail, 3);
    let listing = get_group(&s, true, &"q".to_string()).ok().unwrap();
    assert_eq!(heads(&listing.items), item(&["h0", "a", "b"]));
}

#[test]
fn add_mul_full_success_creates_group() {
    let mut s = Storage::new();
    let report =
        post_group_addmul(&mut s, true, "n".to_string(), vec![item(&["a"]), item(&["b"])], true).ok().unwrap();
    assert_eq!(report.status, 200);
    assert!(report.newgroup);
    assert_eq!(report.items_succ, 2);
    assert_eq!(report.items_fail, 0);
    assert_eq!(report.details, None);
    assert_eq!(get_group_size(&s, true, &"n".to_string()), Ok((200, 2)));
}

#[test]
fn add_mul_empty_list() {
    let mut s = Storage::new();
    assert_eq!(
        post_group_addmul(&mut s, true, "n".to_string(), Vec::new(), false).err(),
        Some(fail(403, Fault::EmptyList))
    );
    assert!(s.is_empty());
}

#[test]
fn add_mul_twice_adds_once() {
    let mut s = Storage::new();
    let list = vec![item(&["a"]), item(&["b"]), item(&["a", "again"])];
    let first = post_group_addmul(&mut s, true, "n".to_string(), list.clone(), false).ok().unwrap();
    assert_eq!(first.items_succ, 2);
    assert_eq!(
        post_group_addmul(&mut s, true, "n".to_string(), list, false).err(),
        Some(fail(400, Fault::AllInvalid))
    );
    assert_eq!(get_group_size(&s, true, &"n".to_string()), Ok((200, 2)));
}

#[test]
fn delete_all_answers() {
    let mut s = Storage::new();
    assert_eq!(delete_all(&mut s, true), Err(fail(404, Fault::ZeroGroups)));
    let mut s = with_group("q", 2);
    post_group_addone(&mut s, true, "r".to_string(), item(&["1"])).unwrap();
    assert_eq!(delete_all(&mut s, true), Ok(()));
    assert!(s.is_empty());
    assert_eq!(get_names(&s, true).err(), Some(fail(404, Fault::ZeroGroups)));
}

#[test]
fn delete_group_answers() {
    let mut s = Storage::new();
    assert_eq!(delete_group(&mut s, true, &"q".to_string()), Err(fail(403, Fault::ZeroGroups)));
    let mut s = with_group("q", 2);
    assert_eq!(delete_group(&mut s, true, &"x".to_string()), Err(fail(404, Fault::GroupNotFound)));
    assert_eq!(delete_group(&mut s, true, &"q".to_string()), Ok(()));
    assert!(!s.contains_group(&"q".to_string()));
}

#[test]
fn delete_index_answers() {
    let mut s = Storage::new();
    let q = "q".to_string();
    assert_eq!(delete_index(&mut s, true, &q, 0), Err(fail(403, Fault::ZeroGroups)));
    let mut s = with_group("q", 2);
    let missing = delete_index(&mut s, true, &"x".to_string(), 0);
    assert_eq!(missing, Err(fail(404, Fault::Unexplained)));
    assert_eq!(Fault::Unexplained.msg(), "");
    assert_eq!(delete_index(&mut s, true, &q, 2), Err(fail(404, Fault::ItemNotFound)));
    assert_eq!(delete_index(&mut s, true, &q, 0), Ok(item(&["h0"])));
    assert_eq!(get_group_size(&s, true, &q), Ok((200, 1)));
    // the last item goes, and the group with it
    assert_eq!(delete_index(&mut s, true, &q, 0), Ok(item(&["h1"])));
    assert!(!s.contains_group(&q));
}

#[test]
fn delete_range_answers() {
    let mut s = Storage::new();
    let q = "q".to_string();
    assert_eq!(delete_range(&mut s, true, &q, 0, 0), Err(fail(403, Fault::ZeroGroups)));
    let mut s = with_group("q", 5);
    assert_eq!(delete_range(&mut s, true, &"x".to_string(), 0, 0), Err(fail(403, Fault::GroupNotFound)));
    assert_eq!(delete_range(&mut s, true, &q, 5, 0), Err(fail(400, Fault::Slice)));
    let taken = delete_range(&mut s, true, &q, 3, 2).unwrap();
    assert_eq!(heads(&taken), item(&["h3", "h4"]));
    let left = get_group(&s, true, &q).ok().unwrap();
    assert_eq!(heads(&left.items), item(&["h0", "h1", "h2"]));
    let rest = delete_range(&mut s, true, &q, 0, 0).unwrap();
    assert_eq!(rest.len(), 3);
    assert!(!s.contains_group(&q));
}

#[test]
fn storage_map_operations() {
    let mut s = with_group("q", 1);
    assert!(s.contains_group(&"q".to_string()));
    assert!(s.group(&"nope".to_string()).is_none());
    assert!(s.add_item(&"q".to_string(), item(&["z"])));
    assert!(!s.add_item(&"q".to_string(), item(&["z"])));
    assert_eq!(s.kick_item(&"q".to_string(), 0), item(&["h0"]));
    assert_eq!(s.take_range(&"q".to_string(), 0, 0, false), vec![item(&["z"])]);
    s.remove_group(&"q".to_string());
    assert!(s.is_empty());
    s.insert_group("w".to_string(), rque::data_storage::Group::new());
    assert_eq!(s.get_size(), 1);
    s.clear();
    assert_eq!(s.get_size(), 0);
}

#[test]
fn add_mul_partial_without_details() {
    let mut s = with_group("q", 1);
    let report =
        post_group_addmul(&mut s, true, "q".to_string(), vec![item(&["h0"]), item(&["n"])], false)
            .ok()
            .unwrap();
    assert_eq!(report.status, 206);
    assert_eq!(report.details, None);
    assert_eq!(report.accepted, vec![false, true]);
    assert_eq!((report.items_succ, report.items_fail), (1, 1));
}
