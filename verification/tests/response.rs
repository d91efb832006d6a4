use mpd_protocol::response::Error;
use mpd_protocol::response::Frame;
use mpd_protocol::response::Response;
use std::sync::Arc;

#[test]
fn owned_frames_iter() {
    let r = Response::new(
        vec![Frame::empty(), Frame::empty(), Frame::empty()],
        Some(Error::default()),
    );

    let mut iter = r.into_frames();

    assert_eq!((4, Some(4)), iter.size_hint());
    assert_eq!(Some(Ok(Frame::empty())), iter.next());

    assert_eq!((3, Some(3)), iter.size_hint());
    assert_eq!(Some(Ok(Frame::empty())), iter.next());

    assert_eq!((2, Some(2)), iter.size_hint());
    assert_eq!(Some(Ok(Frame::empty())), iter.next());

    assert_eq!((1, Some(1)), iter.size_hint());
    assert_eq!(Some(Err(Error::default())), iter.next());

    assert_eq!((0, Some(0)), iter.size_hint());
}

#[test]
fn borrowed_frames_iter() {
    let r = Response::new(
        vec![Frame::empty(), Frame::empty(), Frame::empty()],
        Some(Error::default()),
    );

    let mut iter = r.frames();

    assert_eq!((4, Some(4)), iter.size_hint());
    assert_eq!(Some(Ok(&Frame::empty())), iter.next());

    assert_eq!((3, Some(3)), iter.size_hint());
    assert_eq!(Some(Ok(&Frame::empty())), iter.next());

    assert_eq!((2, Some(2)), iter.size_hint());
    assert_eq!(Some(Ok(&Frame::empty())), iter.next());

    assert_eq!((1, Some(1)), iter.size_hint());
    assert_eq!(Some(Err(&Error::default())), iter.next());

    assert_eq!((0, Some(0)), iter.size_hint());
}

fn frame(pairs: &[(&str, &str)]) -> Frame {
    Frame {
        values: pairs
            .iter()
            .map(|(k, v)| (Arc::from(*k), String::from(*v)))
            .collect(),
        binary: None,
    }
}

#[test]
fn frames_come_oldest_first() {
    let first = frame(&[("hello", "world")]);
    let second = frame(&[("foo", "bar")]);
    let r = Response::new(vec![first.clone(), second.clone()], None);

    assert_eq!(2, r.len());
    assert!(r.is_success());
    assert!(!r.is_error());

    let mut borrowed = r.frames();
    assert_eq!(Some(Ok(&first)), borrowed.next());
    assert_eq!(Some(Ok(&second)), borrowed.next());
    assert_eq!(None, borrowed.next());
    assert_eq!(None, borrowed.next());

    let mut again = r.frames();
    assert_eq!(Some(Ok(&first)), again.next());

    let mut owned = r.clone().into_frames();
    assert_eq!(Some(Ok(first.clone())), owned.next());
    assert_eq!(Some(Ok(second)), owned.next());
    assert_eq!(None, owned.next());
    assert_eq!(None, owned.next());

    assert_eq!(Ok(first), r.single_frame());
}

#[test]
fn error_alone_is_a_response() {
    let r = Response::new(Vec::new(), Some(Error::default()));
    assert!(r.is_error());
    assert!(!r.is_success());
    assert_eq!(0, r.len());
    assert_eq!((1, Some(1)), r.frames().size_hint());
    assert_eq!(Err(Error::default()), r.single_frame());
}

#[test]
fn empty_response_is_one_empty_frame() {
    let r = Response::empty();
    assert_eq!(1, r.len());
    assert!(r.is_success());
    assert_eq!(Some(Ok(&Frame::empty())), r.frames().next());
    assert_eq!(Ok(Frame::empty()), r.single_frame());
}

#[test]
fn empty_frame() {
    let f = Frame::empty();
    assert_eq!(0, f.values.len());
    assert!(f.binary.is_none());
    assert!(f.is_empty());
    assert!(!f.has_binary());
    assert_eq!(0, f.fields_len());
}

#[test]
fn find_gives_the_first_value() {
    let f = frame(&[("foo", "bar"), ("hello", "world"), ("foo", "baz")]);
    assert_eq!(f.find("foo"), Some("bar"));
    assert_eq!(f.find("hello"), Some("world"));
    assert_eq!(f.find("missing"), None);
    assert_eq!(f.fields_len(), 3);
}

#[test]
fn get_removes_what_it_returns() {
    let mut f = frame(&[("foo", "bar"), ("hello", "world"), ("foo", "baz")]);
    assert_eq!(f.get("foo"), Some(String::from("bar")));
    assert_eq!(f, frame(&[("hello", "world"), ("foo", "baz")]));
    assert_eq!(f.get("foo"), Some(String::from("baz")));
    assert_eq!(f.get("foo"), None);
    assert_eq!(f, frame(&[("hello", "world")]));
}

use mpd_protocol::parser;
use mpd_protocol::response::OwnedResponseError;

fn raw_error<'a>(code: u64, message: &'a str) -> parser::Response<'a> {
    parser::Response::Error {
        code,
        command_index: 1,
        current_command: Some("play"),
        message,
    }
}

#[test]
fn owned_response_from_parser_results() {
    let raw = [
        parser::Response::Success {
            fields: vec![("foo", "bar"), ("foo", "baz")],
            binary: None,
        },
        parser::Response::Success {
            fields: vec![("foo", "qux")],
            binary: Some(&b"\x00\x01"[..]),
        },
        raw_error(50, "no such song"),
    ];

    let response = Response::try_from(&raw[..]).unwrap();
    let first = frame(&[("foo", "bar"), ("foo", "baz")]);
    let mut second = frame(&[("foo", "qux")]);
    second.binary = Some(vec![0, 1]);
    let error = Error {
        code: 50,
        command_index: 1,
        current_command: Some(String::from("play")),
        message: String::from("no such song"),
    };
    assert_eq!(response, Response::new(vec![first, second], Some(error)));

    let mut frames = response.frames();
    let a = frames.next().unwrap().unwrap();
    let b = frames.next().unwrap().unwrap();
    assert!(Arc::ptr_eq(&a.values[0].0, &a.values[1].0));
    assert!(Arc::ptr_eq(&a.values[0].0, &b.values[0].0));
}

#[test]
fn owned_response_needs_a_part() {
    assert_eq!(Response::try_from(&[]), Err(OwnedResponseError::Empty));
}

#[test]
fn frames_after_an_error_make_no_response() {
    let raw = [
        raw_error(1, "first"),
        parser::Response::Success {
            fields: Vec::new(),
            binary: None,
        },
    ];
    assert_eq!(
        Response::try_from(&raw[..]),
        Err(OwnedResponseError::FramesAfterError)
    );

    let raw = [
        parser::Response::Success {
            fields: Vec::new(),
            binary: None,
        },
        raw_error(1, "first"),
        raw_error(2, "second"),
        parser::Response::Success {
            fields: Vec::new(),
            binary: None,
        },
    ];
    assert_eq!(
        Response::try_from(&raw[..]),
        Err(OwnedResponseError::FramesAfterError)
    );
}

#[test]
fn first_of_several_errors_counts() {
    let raw = [raw_error(1, "first"), raw_error(2, "second")];
    let error = Response::try_from(&raw[..]).unwrap().single_frame().unwrap_err();
    assert_eq!(error.code, 1);
    assert_eq!(error.message, "first");
}

#[test]
fn values_are_grouped_by_key() {
    let f = frame(&[("foo", "bar"), ("hello", "world"), ("foo", "baz")]);
    let map = f.values_as_map();

    assert_eq!(map.len(), 2);
    assert_eq!(&*map[0].0, "foo");
    assert_eq!(map[0].1, vec!["bar", "baz"]);
    assert_eq!(&*map[1].0, "hello");
    assert_eq!(map[1].1, vec!["world"]);
    assert!(Frame::empty().values_as_map().is_empty());
}

#[test]
fn owned_response_errors_in_words() {
    assert_eq!(
        OwnedResponseError::FramesAfterError.message(),
        "Error frame was not the final element of response"
    );
    assert_eq!(
        OwnedResponseError::Empty.message(),
        "Attempted to construct response with no values"
    );
}

#[test]
fn clones_are_equal() {
    let mut f = frame(&[("foo", "bar"), ("foo", "baz")]);
    f.binary = Some(vec![1, 2, 3]);
    assert_eq!(f.clone(), f);

    let e = Error {
        code: 2,
        command_index: 3,
        current_command: Some(String::from("play")),
        message: String::from("no"),
    };
    assert_eq!(e.clone(), e);

    let r = Response::new(vec![Frame::empty(), f.clone()], Some(e.clone()));
    assert_eq!(r.clone(), r);

    let mut items = r.into_frames();
    assert_eq!(items.next(), Some(Ok(Frame::empty())));
    let mut rest = items.clone();
    assert_eq!((2, Some(2)), rest.size_hint());
    assert_eq!(rest.next(), Some(Ok(f.clone())));
    assert_eq!(rest.next(), Some(Err(e)));
    assert_eq!(rest.next(), None);
    assert_eq!(items.next(), Some(Ok(f)));
}

#[test]
fn groups_stand_in_order_of_first_occurrence() {
    let f = frame(&[("b", "1"), ("a", "2"), ("b", "3"), ("c", "4"), ("a", "5")]);
    let map = f.values_as_map();
    let keys: Vec<&str> = map.iter().map(|g| &*g.0).collect();
    assert_eq!(keys, vec!["b", "a", "c"]);
    assert_eq!(map[0].1, vec!["1", "3"]);
    assert_eq!(map[1].1, vec!["2", "5"]);
    assert_eq!(map[2].1, vec!["4"]);
}
