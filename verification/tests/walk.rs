use fs_timeline::entry::{Entry, EntryKind, Metadata};
use fs_timeline::walk::{WalkAction, WalkError, WalkEvent, Walker};

fn entry(path: &str, kind: EntryKind) -> Entry {
    Entry {
        path: path.as_bytes().to_vec(),
        metadata: Metadata {
            kind,
            len: 0,
            accessed: None,
            modified: None,
            created: None,
            unix: None,
        },
    }
}

fn file(path: &str) -> Result<Entry, WalkError> {
    Ok(entry(path, EntryKind::File))
}

fn dir(path: &str) -> Result<Entry, WalkError> {
    Ok(entry(path, EntryKind::Directory))
}

fn link(path: &str) -> Result<Entry, WalkError> {
    Ok(entry(path, EntryKind::Symlink))
}

fn expect_list(walker: &mut Walker, event: WalkEvent, path: &str) {
    match walker.step(event) {
        WalkAction::List(p) => assert_eq!(p, path.as_bytes().to_vec()),
        other => panic!("expected a listing of {}, got {:?}", path, other),
    }
}

fn expect_yield(walker: &mut Walker, event: WalkEvent, path: &str) {
    match walker.step(event) {
        WalkAction::Yield(e) => assert_eq!(e.path, path.as_bytes().to_vec()),
        other => panic!("expected the entry {}, got {:?}", path, other),
    }
}

fn expect_skip(walker: &mut Walker, event: WalkEvent, code: i32) {
    match walker.step(event) {
        WalkAction::Skip(e) => assert_eq!(e, WalkError { code }),
        other => panic!("expected a skip, got {:?}", other),
    }
}

fn expect_done(walker: &mut Walker, event: WalkEvent) {
    match walker.step(event) {
        WalkAction::Done => {}
        other => panic!("expected the end, got {:?}", other),
    }
    assert!(walker.is_over());
}

#[test]
fn walk_of_an_empty_root() {
    let mut walker = Walker::new(b"/r".to_vec());
    assert!(!walker.is_over());
    expect_list(&mut walker, WalkEvent::Resume, "/r");
    expect_done(&mut walker, WalkEvent::Listed(Ok(vec![])));
    expect_done(&mut walker, WalkEvent::Resume);
}

#[test]
fn walk_that_cannot_list_its_root_fails() {
    let mut walker = Walker::new(b"/r".to_vec());
    match walker.step(WalkEvent::Listed(Err(WalkError { code: 2 }))) {
        WalkAction::Fail(e) => assert_eq!(e.code, 2),
        other => panic!("expected a failure, got {:?}", other),
    }
    assert!(walker.is_over());
    expect_done(&mut walker, WalkEvent::Resume);
}

#[test]
fn listing_is_asked_for_until_it_comes() {
    let mut walker = Walker::new(b"/r".to_vec());
    expect_list(&mut walker, WalkEvent::Resume, "/r");
    expect_list(&mut walker, WalkEvent::Resume, "/r");
    expect_yield(&mut walker, WalkEvent::Listed(Ok(vec![dir("/r/d")])), "/r/d");
    expect_list(&mut walker, WalkEvent::Resume, "/r/d");
    expect_list(&mut walker, WalkEvent::Resume, "/r/d");
    expect_done(&mut walker, WalkEvent::Listed(Ok(vec![])));
}

#[test]
fn children_come_in_listing_order_and_before_later_siblings_of_their_parent() {
    let mut walker = Walker::new(b"/r".to_vec());
    expect_list(&mut walker, WalkEvent::Resume, "/r");
    expect_yield(
        &mut walker,
        WalkEvent::Listed(Ok(vec![file("/r/2"), dir("/r/a"), file("/r/1")])),
        "/r/2",
    );
    expect_yield(&mut walker, WalkEvent::Resume, "/r/a");
    expect_list(&mut walker, WalkEvent::Resume, "/r/a");
    expect_yield(
        &mut walker,
        WalkEvent::Listed(Ok(vec![file("/r/a/y"), dir("/r/a/b"), file("/r/a/x")])),
        "/r/a/y",
    );
    expect_yield(&mut walker, WalkEvent::Resume, "/r/a/b");
    expect_list(&mut walker, WalkEvent::Resume, "/r/a/b");
    expect_yield(&mut walker, WalkEvent::Listed(Ok(vec![])), "/r/a/x");
    expect_yield(&mut walker, WalkEvent::Resume, "/r/1");
    expect_done(&mut walker, WalkEvent::Resume);
}

#[test]
fn symbolic_link_is_handed_out_and_never_listed() {
    let mut walker = Walker::new(b"/r".to_vec());
    expect_list(&mut walker, WalkEvent::Resume, "/r");
    expect_yield(&mut walker, WalkEvent::Listed(Ok(vec![dir("/r/dir")])), "/r/dir");
    expect_list(&mut walker, WalkEvent::Resume, "/r/dir");
    expect_yield(
        &mut walker,
        WalkEvent::Listed(Ok(vec![link("/r/dir/up"), Ok(entry("/r/dir/pipe", EntryKind::Other))])),
        "/r/dir/up",
    );
    expect_yield(&mut walker, WalkEvent::Resume, "/r/dir/pipe");
    expect_done(&mut walker, WalkEvent::Resume);
}

#[test]
fn unreadable_child_is_skipped_between_its_siblings() {
    let mut walker = Walker::new(b"/r".to_vec());
    expect_yield(
        &mut walker,
        WalkEvent::Listed(Ok(vec![file("/r/a"), Err(WalkError { code: 13 }), file("/r/b")])),
        "/r/a",
    );
    expect_skip(&mut walker, WalkEvent::Resume, 13);
    expect_yield(&mut walker, WalkEvent::Resume, "/r/b");
    expect_done(&mut walker, WalkEvent::Resume);
}

#[test]
fn directory_below_the_root_that_cannot_be_listed_is_skipped() {
    let mut walker = Walker::new(b"/r".to_vec());
    expect_yield(&mut walker, WalkEvent::Listed(Ok(vec![dir("/r/d"), file("/r/f")])), "/r/d");
    expect_skip(&mut walker, WalkEvent::Listed(Err(WalkError { code: 5 })), 5);
    assert!(!walker.is_over());
    expect_yield(&mut walker, WalkEvent::Resume, "/r/f");
    expect_done(&mut walker, WalkEvent::Resume);
}

#[test]
fn listing_that_nobody_asked_for_is_ignored() {
    let mut walker = Walker::new(b"/r".to_vec());
    expect_yield(&mut walker, WalkEvent::Listed(Ok(vec![file("/r/a"), file("/r/b")])), "/r/a");
    expect_yield(&mut walker, WalkEvent::Listed(Ok(vec![file("/r/stray")])), "/r/b");
    expect_done(&mut walker, WalkEvent::Listed(Err(WalkError { code: 1 })));
}
