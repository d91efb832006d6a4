use bytes::BytesMut;
use mpd_protocol::codec::MpdCodec;
use mpd_protocol::codec::MpdCodecError;
use mpd_protocol::command::Command;
use mpd_protocol::command::CommandList;
use mpd_protocol::response::Frame;
use mpd_protocol::response::Response;

fn dummy_codec() -> MpdCodec {
    match MpdCodec::handshake(b"OK MPD 0.21.11\n") {
        Ok(Some((codec, _))) => codec,
        other => panic!("no codec: {:?}", other),
    }
}

fn init_buffer(msg: &[u8]) -> BytesMut {
    BytesMut::from(msg)
}

#[test]
fn encoder() {
    let mut codec = dummy_codec();
    let buf = &mut BytesMut::new();

    let command = CommandList::new(Command::build("status").unwrap());

    codec.encode(command, buf).unwrap();

    assert_eq!(&b"status\n"[..], buf);
}

#[test]
fn connect() {
    let buf = Vec::from(&b"OK MPD 0.21.11\n"[..]);

    let (codec, consumed) = MpdCodec::handshake(&buf).unwrap().unwrap();

    assert_eq!(consumed, buf.len());
    assert_eq!(codec.protocol_version(), "0.21.11");
}

#[test]
fn empty_response() {
    let mut codec = dummy_codec();
    let buf = &mut init_buffer(b"OK");

    assert_eq!(None, codec.decode(buf).unwrap());

    buf.extend_from_slice(b"\n");

    assert_eq!(Some(Response::empty()), codec.decode(buf).unwrap());
}

#[test]
fn simple_response() {
    let mut codec = dummy_codec();
    let buf = &mut init_buffer(b"hello: world\nfoo: OK\nbar: 1234\nOK");

    assert_eq!(None, codec.decode(buf).unwrap());

    buf.extend_from_slice(b"\n");

    let response = codec.decode(buf).expect("failed to decode").unwrap();
    let frame = response.single_frame().unwrap();

    assert_eq!(frame.find("hello"), Some("world"));
    assert_eq!(frame.find("foo"), Some("OK"));
    assert_eq!(frame.find("bar"), Some("1234"));

    assert!(buf.is_empty());
}

#[test]
fn decoder_ignores_trailing_data() {
    let mut codec = dummy_codec();
    let buf = &mut init_buffer(b"foo: OK\nOK\ntrailing_stuff");

    let _ = codec.decode(buf).unwrap();

    assert_eq!(buf, "trailing_stuff");
}

#[test]
fn command_list() {
    let mut codec = dummy_codec();
    let buf = &mut init_buffer(b"list_OK\nfoo: bar\nlist_OK\nbinary: 6\nBINARY\nlist_OK\nOK");

    assert_eq!(None, codec.decode(buf).unwrap());

    buf.extend_from_slice(b"\n");

    let mut response = codec
        .decode(buf)
        .expect("failed to decode")
        .unwrap()
        .into_iter();

    let first = response.next().unwrap().unwrap();
    let second = response.next().unwrap().unwrap();
    let mut third = response.next().unwrap().unwrap();

    assert!(buf.is_empty());

    assert!(first.is_empty());

    assert_eq!(second.find("foo"), Some("bar"));

    assert_eq!(third.find("binary"), None);
    assert_eq!(third.get_binary(), Some(BytesMut::from("BINARY")));
}

#[test]
fn binary_response() {
    let mut codec = dummy_codec();
    let buf = &mut init_buffer(b"binary: 16\nHELLO \nOK\n");

    assert_eq!(None, codec.decode(buf).unwrap());

    buf.extend_from_slice(b" WORLD\nOK\n");

    let response = codec.decode(buf).expect("failed to decode").unwrap();
    let mut frame = response.single_frame().unwrap();

    assert_eq!(frame.fields_len(), 0);
    assert_eq!(
        frame.get_binary(),
        Some(BytesMut::from("HELLO \nOK\n WORLD"))
    );

    assert!(buf.is_empty());
}

#[test]
fn multiple_messages() {
    let mut codec = dummy_codec();
    let buf = &mut init_buffer(b"foo: bar\nOK\nhello: world\nOK\n");

    let response = codec.decode(buf).expect("failed to decode").unwrap();
    let frame = response.single_frame().unwrap();

    assert_eq!(frame.find("foo"), Some("bar"));
    assert_eq!(&buf[..], b"hello: world\nOK\n");

    let response = codec.decode(buf).expect("failed to decode").unwrap();
    let frame = response.single_frame().unwrap();

    assert_eq!(frame.find("hello"), Some("world"));
    assert!(buf.is_empty());
}

#[test]
fn cursor_reset() {
    let mut codec = dummy_codec();
    let buf = &mut init_buffer(b"hello: world\nOK");

    assert_eq!(None, codec.decode(buf).unwrap());

    buf.extend_from_slice(b"\na: b\nOK\n");

    assert!(codec.decode(buf).unwrap().is_some());
    assert!(codec.decode(buf).unwrap().is_some());
}

#[test]
fn greeting_needs_its_newline() {
    assert!(matches!(MpdCodec::handshake(b"OK MPD 0.21.11"), Ok(None)));
    assert!(matches!(MpdCodec::handshake(b""), Ok(None)));
    assert!(matches!(MpdCodec::handshake(b"OK M"), Ok(None)));
}

#[test]
fn greeting_is_refused() {
    assert!(matches!(
        MpdCodec::handshake(b"OK MPX"),
        Err(MpdCodecError::InvalidGreeting)
    ));
    assert!(matches!(
        MpdCodec::handshake(b"OK MPD \n"),
        Err(MpdCodecError::InvalidGreeting)
    ));
    assert!(matches!(
        MpdCodec::handshake(b"OK MPD \xff\n"),
        Err(MpdCodecError::InvalidGreeting)
    ));
    assert!(matches!(
        MpdCodec::handshake(b"OK MPD 0123456789012345678901234"),
        Err(MpdCodecError::InvalidGreeting)
    ));
    assert!(matches!(
        MpdCodec::handshake(b"OK MPD 012345678901234567890123"),
        Ok(None)
    ));
}

#[test]
fn greeting_leaves_what_follows() {
    let (codec, consumed) = MpdCodec::handshake(b"OK MPD 0.22.0\nOK\n").unwrap().unwrap();
    assert_eq!(consumed, 14);
    assert_eq!(codec.protocol_version(), "0.22.0");
}

#[test]
fn malformed_message_is_refused_and_kept() {
    let mut codec = dummy_codec();
    let buf = &mut init_buffer(b"foo: bar\nnot a field\nOK\n");

    assert!(matches!(codec.decode(buf), Err(MpdCodecError::InvalidMessage)));
    assert_eq!(&buf[..], b"foo: bar\nnot a field\nOK\n");
    assert!(matches!(codec.decode(buf), Err(MpdCodecError::InvalidMessage)));
}

#[test]
fn error_ends_the_response() {
    let mut codec = dummy_codec();
    let buf = &mut init_buffer(
        b"list_OK\nfoo: bar\nlist_OK\nACK [50@2] {play} song doesn't exist: \"10240\"\nOK\n",
    );

    let response = codec.decode(buf).unwrap().unwrap();
    assert_eq!(&buf[..], b"OK\n");
    assert!(response.is_error());
    assert_eq!(response.len(), 2);

    let mut items = response.into_frames();
    assert!(items.next().unwrap().unwrap().is_empty());
    assert_eq!(items.next().unwrap().unwrap().find("foo"), Some("bar"));
    let error = items.next().unwrap().unwrap_err();
    assert_eq!(error.code, 50);
    assert_eq!(error.command_index, 2);
    assert_eq!(error.current_command.as_deref(), Some("play"));
    assert_eq!(error.message, "song doesn't exist: \"10240\"");
    assert!(items.next().is_none());
}

#[test]
fn error_without_command() {
    let mut codec = dummy_codec();
    let buf = &mut init_buffer(b"ACK [5@0] {} unknown command \"foo\"\n");

    let error = codec.decode(buf).unwrap().unwrap().single_frame().unwrap_err();
    assert_eq!(error.code, 5);
    assert_eq!(error.command_index, 0);
    assert_eq!(error.current_command, None);
    assert_eq!(error.message, "unknown command \"foo\"");
    assert!(buf.is_empty());
}

#[test]
fn malformed_units() {
    for bad in [
        &b"ACK [5@] {} x\n"[..],
        b"ACK [@1] {} x\n",
        b"ACK [5@0]{} x\n",
        b"ACK [5@0] {a b} x\n",
        b"ACK [99999999999999999999@0] {} x\n",
        b"ACK 5@0 {} x\n",
        b": value\n",
        b"key:value\n",
        b"key\n",
        b"\n",
        b"binary: x\n",
        b"binary: \n",
        b"binary: 3\nabcd\n",
        b"binary: 99999999999999999999999\n",
        b"key: \xff\n",
        b"OK MPD 0.21.11\n",
    ] {
        let mut codec = dummy_codec();
        let buf = &mut init_buffer(bad);
        assert!(
            matches!(codec.decode(buf), Err(MpdCodecError::InvalidMessage)),
            "{:?}",
            bad
        );
        assert_eq!(&buf[..], bad);
    }
}

#[test]
fn binary_payload_may_hold_terminators() {
    let mut codec = dummy_codec();
    let buf = &mut init_buffer(b"binary: 11\nOK\nlist_OK\n\nOK\nrest");

    let mut frame = codec.decode(buf).unwrap().unwrap().single_frame().unwrap();
    assert_eq!(frame.get_binary(), Some(BytesMut::from("OK\nlist_OK\n")));
    assert_eq!(frame.get_binary(), None);
    assert_eq!(&buf[..], b"rest");
}

#[test]
fn empty_binary_payload() {
    let mut codec = dummy_codec();
    let buf = &mut init_buffer(b"size: 0\nbinary: 0\n\nOK\n");

    let mut frame = codec.decode(buf).unwrap().unwrap().single_frame().unwrap();
    assert_eq!(frame.find("size"), Some("0"));
    assert_eq!(frame.fields_len(), 1);
    assert!(frame.has_binary());
    assert_eq!(frame.get_binary(), Some(BytesMut::new()));
}

#[test]
fn decoding_resumes_byte_by_byte() {
    let whole = b"list_OK\nfile: a.mp3\nTitle: \xc3\x84\nbinary: 4\n\nOK\n\nlist_OK\nOK\nnext: 1\nOK\n";
    let mut expected_codec = dummy_codec();
    let expected = expected_codec
        .decode(&mut init_buffer(whole))
        .unwrap()
        .unwrap();

    let mut codec = dummy_codec();
    let buf = &mut BytesMut::new();
    let mut decoded = None;
    let mut fed = 0;
    for byte in whole.iter() {
        buf.extend_from_slice(&[*byte]);
        fed += 1;
        let before = buf.len();
        match codec.decode(buf).unwrap() {
            Some(response) => {
                decoded = Some(response);
                break;
            }
            None => assert_eq!(buf.len(), before),
        }
    }
    assert_eq!(fed, whole.len() - b"next: 1\nOK\n".len());
    assert!(buf.is_empty());
    assert_eq!(decoded, Some(expected));
}

#[test]
fn encoder_wraps_lists() {
    let mut codec = dummy_codec();
    let buf = &mut init_buffer(b"x");

    let mut list = CommandList::new(Command::build("Status").unwrap());
    list.add(Command::build("PLAY now").unwrap()).unwrap();
    assert_eq!(list.len(), 2);

    codec.encode(list, buf).unwrap();
    assert_eq!(
        &buf[..],
        &b"xcommand_list_ok_begin\nstatus\nplay now\ncommand_list_end\n"[..]
    );

    codec
        .encode_command(Command::build("stop").unwrap(), buf)
        .unwrap();
    assert_eq!(
        &buf[..],
        &b"xcommand_list_ok_begin\nstatus\nplay now\ncommand_list_end\nstop\n"[..]
    );
}

#[test]
fn codec_errors_in_words() {
    assert_eq!(MpdCodecError::InvalidMessage.message(), "invalid message");
    assert_eq!(MpdCodecError::InvalidGreeting.message(), "invalid greeting");
    let io = MpdCodecError::from(std::io::Error::from(std::io::ErrorKind::UnexpectedEof));
    assert_eq!(io.message(), "IO error");
    assert!(io.source().is_some());
    assert!(MpdCodecError::InvalidMessage.source().is_none());
}

#[test]
fn closing_line_of_a_batch_adds_no_frame() {
    let mut codec = dummy_codec();
    let buf = &mut init_buffer(b"list_OK\nfoo: bar\nlist_OK\nbinary: 6\nBINARY\nlist_OK\nOK\n");

    let response = codec.decode(buf).unwrap().unwrap();
    assert!(buf.is_empty());
    assert!(!response.is_error());
    assert_eq!(response.len(), 3);
    assert_eq!((3, Some(3)), response.frames().size_hint());

    let mut items = response.into_frames();
    assert_eq!(items.next(), Some(Ok(Frame::empty())));
    let second = items.next().unwrap().unwrap();
    assert_eq!(second.values.len(), 1);
    assert_eq!(&*second.values[0].0, "foo");
    assert_eq!(second.values[0].1, "bar");
    assert_eq!(second.binary, None);
    let third = items.next().unwrap().unwrap();
    assert!(third.values.is_empty());
    assert_eq!(third.binary, Some(b"BINARY".to_vec()));
    assert_eq!(items.next(), None);
}

#[test]
fn last_command_of_a_batch_may_end_with_the_response() {
    let mut codec = dummy_codec();
    let buf = &mut init_buffer(b"foo: bar\nlist_OK\nbaz: qux\nOK\nlist_OK\nOK\nOK\n");

    let first = codec.decode(buf).unwrap().unwrap();
    assert_eq!(first.len(), 2);
    let mut items = first.into_frames();
    assert_eq!(items.next().unwrap().unwrap().find("foo"), Some("bar"));
    assert_eq!(items.next().unwrap().unwrap().find("baz"), Some("qux"));
    assert_eq!(items.next(), None);

    let second = codec.decode(buf).unwrap().unwrap();
    assert_eq!(second, Response::empty());

    let third = codec.decode(buf).unwrap().unwrap();
    assert_eq!(third, Response::empty());
    assert!(buf.is_empty());
}

#[test]
fn payload_alone_in_the_last_frame_is_kept() {
    let mut codec = dummy_codec();
    let buf = &mut init_buffer(b"list_OK\nbinary: 2\nab\nOK\n");

    let response = codec.decode(buf).unwrap().unwrap();
    assert_eq!(response.len(), 2);
    let mut items = response.into_frames();
    assert!(items.next().unwrap().unwrap().is_empty());
    assert_eq!(items.next().unwrap().unwrap().binary, Some(b"ab".to_vec()));
}

#[test]
fn encoding_with_room_appends() {
    let mut codec = dummy_codec();
    let buf = &mut init_buffer(b"x");

    let list = CommandList::build(&["status", "stats"]).unwrap();
    assert_eq!(codec.try_encode(list, buf), Ok(()));
    assert_eq!(
        &buf[..],
        &b"xcommand_list_ok_begin\nstatus\nstats\ncommand_list_end\n"[..]
    );

    let buf = &mut BytesMut::new();
    assert_eq!(
        codec.try_encode_command(Command::build("Ping").unwrap(), buf),
        Ok(())
    );
    assert_eq!(&buf[..], &b"ping\n"[..]);
}

#[test]
fn cloned_codec_goes_on_where_the_first_stands() {
    let mut codec = dummy_codec();
    let buf = &mut init_buffer(b"list_OK\nfoo: bar\n");
    assert_eq!(None, codec.decode(buf).unwrap());

    let mut copy = codec.clone();
    assert_eq!(copy.protocol_version(), codec.protocol_version());
    buf.extend_from_slice(b"OK\n");
    let other = &mut buf.clone();

    let a = codec.decode(buf).unwrap().unwrap();
    let b = copy.decode(other).unwrap().unwrap();
    assert_eq!(a, b);
    assert_eq!(a.len(), 2);
}
