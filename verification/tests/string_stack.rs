use agdatex::string_stack::StringStack;

const S1: &str = "hi";
const S2: &str = "there";
const S3: &str = "y'all good!?";

const STRS: [&str; 6] = [S1, S2, S3, S1, S2, S3];
const STRS_REV: [&str; 6] = [S3, S2, S1, S3, S2, S1];

#[test]
fn try_pop_empty() {
    assert!(StringStack::new().try_pop().is_none());
}

#[test]
fn push_top_pop() {
    let mut stack = StringStack::new();
    stack.push(S1);
    stack.push(S2);
    stack.push(S3);

    assert_eq!(stack.top(), Some(S3));
    assert_eq!(stack.pop().as_str(), S3);

    assert_eq!(stack.top(), Some(S2));
    assert_eq!(stack.pop().as_str(), S2);

    assert_eq!(stack.top(), Some(S1));
    assert_eq!(stack.pop().as_str(), S1);

    assert_eq!(stack.top(), None);
    assert!(stack.try_pop().is_none());
}

#[test]
fn iter_forwards() {
    let stack = StringStack::from_iter(&STRS);
    let mut iter = stack.iter();
    let mut items = Vec::new();
    while let Some(item) = iter.next() {
        items.push(item);
    }
    assert_eq!(items, STRS_REV);
}

#[test]
fn iter_backwards() {
    let stack = StringStack::from_iter(&STRS);
    let mut iter = stack.iter();
    let mut items = Vec::new();
    while let Some(item) = iter.next_back() {
        items.push(item);
    }
    assert_eq!(items, STRS);
}

#[test]
fn iter_mixed() {
    let stack = StringStack::from_iter(&STRS);
    let mut iter = stack.iter();

    let mut sink_fwd = Vec::new();
    let mut sink_bwd = Vec::new();

    loop {
        let Some(fwd) = iter.next() else {
            break;
        };
        sink_fwd.push(fwd);

        let Some(bwd) = iter.next_back() else {
            break;
        };
        sink_bwd.push(bwd);
    }

    assert_eq!(sink_fwd, [S3, S2, S1]);
    assert_eq!(sink_bwd, [S1, S2, S3]);
}

#[test]
fn iter_mixed2() {
    let stack = StringStack::from_iter(&STRS);
    let mut iter = stack.iter();

    let mut sink_fwd = Vec::new();
    let mut sink_bwd = Vec::new();

    loop {
        let Some(bwd) = iter.next_back() else {
            break;
        };
        sink_bwd.push(bwd);

        let Some(fwd) = iter.next() else {
            break;
        };
        sink_fwd.push(fwd);
    }

    assert_eq!(sink_fwd, [S3, S2, S1]);
    assert_eq!(sink_bwd, [S1, S2, S3]);
}

#[test]
fn len_and_is_empty() {
    let mut stack = StringStack::new();

    assert!(stack.is_empty());
    assert_eq!(stack.len(), 0);

    stack.push(S1);

    assert!(!stack.is_empty());
    assert_eq!(stack.len(), 1);

    stack.pop();
    assert!(stack.is_empty());
    assert_eq!(stack.len(), 0);

    stack.extend(&STRS);
    assert!(!stack.is_empty());
    assert_eq!(stack.len(), STRS.len());
}

#[test]
fn iter_knows_how_many_are_left() {
    let stack = StringStack::from_iter(&STRS);
    let mut iter = stack.iter();
    assert_eq!(iter.len(), 6);
    assert_eq!(iter.size_hint(), (6, Some(6)));
    iter.next();
    iter.next_back();
    assert_eq!(iter.len(), 4);
    assert_eq!(iter.clone().count(), 4);
    assert_eq!(iter.last(), Some(S2));
    assert_eq!(StringStack::default().iter().last(), None);
}

#[test]
fn top_can_be_changed_in_place() {
    let mut stack = StringStack::from_iter(&["one", "two"]);
    stack.top_mut().unwrap().make_ascii_uppercase();
    assert_eq!(stack.top(), Some("TWO"));
    assert_eq!(stack.as_str(), "oneTWO");
    stack.pop();
    assert_eq!(stack.top(), Some("one"));
    stack.clear();
    assert!(stack.top_mut().is_none());
}

#[test]
fn popped_strings_can_be_changed() {
    let mut stack = StringStack::from_iter(&["\u{3bb}", "x"]);
    let copy = stack.clone();
    let mut popped = stack.pop();
    popped.as_str_mut().make_ascii_uppercase();
    assert_eq!(popped.as_str(), "X");
    assert_eq!(popped.as_ref() as &str, "X");
    assert_eq!(popped.len(), 1);
    assert_eq!(stack.as_str(), "\u{3bb}");
    assert_eq!(copy.as_str(), "\u{3bb}x");
}

#[test]
fn push_and_pop_undo_each_other() {
    let mut stack = StringStack::from_iter(&["a", ""]);
    let before = stack.as_str().to_owned();
    stack.push("bc");
    assert_eq!(stack.as_str(), "abc");
    assert_eq!(stack.pop().as_str(), "bc");
    assert_eq!(stack.as_str(), before);
    assert_eq!(stack.len(), 2);
}
