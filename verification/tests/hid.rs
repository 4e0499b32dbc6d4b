use rlex::fsa::hid::Hid;

#[test]
fn one_level_hierarchy() {
    let hid = Hid::init(0);

    assert_eq!(hid.cid(), 0);
}

#[test]
fn two_level_hierarchy() {
    let mut hid = Hid::init(0);

    hid.append(2);

    assert_eq!(hid.cid(), 2);
}

#[test]
fn consume_id() {
    let mut hid = Hid::init(0);

    hid.append(2);
    hid.consume();

    assert_eq!(hid.cid(), 0);
}

#[test]
fn multiple_consume() {
    let mut hid = Hid::init(0);

    hid.append(2);
    hid.consume();
    hid.consume(); // consume gets called more than append

    assert_eq!(hid.cid(), 0);
}

#[test]
fn append_after_consume_is_active() {
    let mut hid = Hid::init(0);

    hid.append(2);
    hid.consume();
    hid.append(5);

    assert_eq!(hid.cid(), 5);

    hid.consume();

    assert_eq!(hid.cid(), 0);
}

#[test]
fn append_append_consume_is_one_append() {
    let mut once = Hid::init(7);
    once.append(9);

    let mut twice = Hid::init(7);
    twice.append(9);
    twice.append(11);
    twice.consume();

    assert_eq!(twice.cid(), once.cid());
    assert_eq!(twice.cid(), 9);
}

#[test]
fn consume_at_root_is_idempotent() {
    let mut hid = Hid::init(3);

    hid.consume();
    assert_eq!(hid.cid(), 3);
    hid.consume();
    hid.consume();
    assert_eq!(hid.cid(), 3);
}

#[test]
fn cid_is_repeatable() {
    let mut hid = Hid::init(1);
    hid.append(4);

    assert_eq!(hid.cid(), 4);
    assert_eq!(hid.cid(), 4);
}
