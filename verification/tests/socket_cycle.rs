use wayland_commons::socket::{BufferedSocket, ReadStop, MAX_BYTES_OUT};
use wayland_commons::wire::{Argument, ArgumentType, Message, MessageArgs, MessageParseError};

fn same_file(a: i32, b: i32) -> bool {
    let stat1 = nix::sys::stat::fstat(a).unwrap();
    let stat2 = nix::sys::stat::fstat(b).unwrap();
    stat1.st_dev == stat2.st_dev && stat1.st_ino == stat2.st_ino
}

// check if two messages are equal
//
// if arguments contain FDs, check that the fd point to
// the same file, rather than are the same number.
fn assert_eq_msgs(msg1: &Message, msg2: &Message) {
    assert_eq!(msg1.sender_id, msg2.sender_id);
    assert_eq!(msg1.opcode, msg2.opcode);
    assert_eq!(msg1.args.len(), msg2.args.len());
    for (arg1, arg2) in msg1.args.as_slice().iter().zip(msg2.args.as_slice().iter()) {
        if let (&Argument::Fd(fd1), &Argument::Fd(fd2)) = (arg1, arg2) {
            assert!(same_file(fd1, fd2));
        } else {
            assert_eq!(arg1, arg2);
        }
    }
}

// what a socket pair does: the bytes and descriptors written by one end are
// received by the other
fn transfer(client: &mut BufferedSocket<()>, server: &mut BufferedSocket<()>) {
    if let Some((bytes, fds)) = client.pending_output() {
        client.output_sent();
        server.prepare_incoming();
        let (room_bytes, room_fds) = server.incoming_room();
        assert!(bytes.len() <= room_bytes && fds.len() <= room_fds);
        server.receive_incoming(&bytes, &fds).unwrap();
    }
}

fn write_message(client: &mut BufferedSocket<()>, msg: &Message) {
    assert!(client.attempt_write_message(msg).unwrap());
}

fn read_messages<F1, F2>(server: &mut BufferedSocket<()>, signature: F1, callback: F2) -> usize
where
    F1: FnMut(u32, u16) -> Option<&'static [ArgumentType]>,
    F2: FnMut(Message) -> bool,
{
    let (count, stop) = server.read_messages_round(signature, callback, 0);
    assert!(matches!(stop, ReadStop::NeedData));
    count
}

fn args(v: Vec<Argument>) -> MessageArgs {
    MessageArgs::from_vec(v)
}

#[test]
fn write_read_cycle() {
    let msg = Message {
        sender_id: 42,
        opcode: 7,
        args: args(vec![
            Argument::Uint(3),
            Argument::Fixed(-89),
            Argument::Str(Box::new(b"I like trains!".to_vec())),
            Argument::Array(Box::new(vec![1, 2, 3, 4, 5, 6, 7, 8, 9])),
            Argument::Object(88),
            Argument::NewId(56),
            Argument::Int(-25),
        ]),
    };

    let mut client = BufferedSocket::new(());
    let mut server = BufferedSocket::new(());

    write_message(&mut client, &msg);
    transfer(&mut client, &mut server);

    const SIGNATURE: &[ArgumentType] = &[
        ArgumentType::Uint,
        ArgumentType::Fixed,
        ArgumentType::Str,
        ArgumentType::Array,
        ArgumentType::Object,
        ArgumentType::NewId,
        ArgumentType::Int,
    ];

    let ret = read_messages(
        &mut server,
        |sender_id, opcode| {
            if sender_id == 42 && opcode == 7 {
                Some(SIGNATURE)
            } else {
                None
            }
        },
        |message| {
            assert_eq_msgs(&message, &msg);
            true
        },
    );

    assert_eq!(ret, 1);
}

#[test]
fn write_read_cycle_fd() {
    let msg = Message {
        sender_id: 42,
        opcode: 7,
        args: args(vec![
            Argument::Fd(1), // stdin
            Argument::Fd(0), // stdout
        ]),
    };

    let mut client = BufferedSocket::new(());
    let mut server = BufferedSocket::new(());

    write_message(&mut client, &msg);
    transfer(&mut client, &mut server);

    const SIGNATURE: &[ArgumentType] = &[ArgumentType::Fd, ArgumentType::Fd];

    let ret = read_messages(
        &mut server,
        |sender_id, opcode| {
            if sender_id == 42 && opcode == 7 {
                Some(SIGNATURE)
            } else {
                None
            }
        },
        |message| {
            assert_eq_msgs(&message, &msg);
            true
        },
    );

    assert_eq!(ret, 1);
}

#[test]
fn write_read_cycle_multiple() {
    let messages = [
        Message {
            sender_id: 42,
            opcode: 0,
            args: args(vec![
                Argument::Int(42),
                Argument::Str(Box::new(b"I like trains".to_vec())),
            ]),
        },
        Message {
            sender_id: 42,
            opcode: 1,
            args: args(vec![
                Argument::Fd(1), // stdin
                Argument::Fd(0), // stdout
            ]),
        },
        Message {
            sender_id: 42,
            opcode: 2,
            args: args(vec![
                Argument::Uint(3),
                Argument::Fd(2), // stderr
            ]),
        },
    ];

    const SIGNATURES: &[&[ArgumentType]] = &[
        &[ArgumentType::Int, ArgumentType::Str],
        &[ArgumentType::Fd, ArgumentType::Fd],
        &[ArgumentType::Uint, ArgumentType::Fd],
    ];

    let mut client = BufferedSocket::new(());
    let mut server = BufferedSocket::new(());

    for msg in &messages {
        write_message(&mut client, msg);
    }
    transfer(&mut client, &mut server);

    let mut recv_msgs = Vec::new();
    let ret = read_messages(
        &mut server,
        |sender_id, opcode| {
            if sender_id == 42 {
                Some(SIGNATURES[opcode as usize])
            } else {
                None
            }
        },
        |message| {
            recv_msgs.push(message);
            true
        },
    );

    assert_eq!(ret, 3);
    assert_eq!(recv_msgs.len(), 3);
    for (msg1, msg2) in messages.iter().zip(recv_msgs.iter()) {
        assert_eq_msgs(msg1, msg2);
    }
}

#[test]
fn parse_with_string_len_multiple_of_4() {
    let msg = Message {
        sender_id: 2,
        opcode: 0,
        args: args(vec![
            Argument::Uint(18),
            Argument::Str(Box::new(b"wl_shell".to_vec())),
            Argument::Uint(1),
        ]),
    };

    let mut client = BufferedSocket::new(());
    let mut server = BufferedSocket::new(());

    write_message(&mut client, &msg);
    transfer(&mut client, &mut server);

    const SIGNATURE: &[ArgumentType] = &[ArgumentType::Uint, ArgumentType::Str, ArgumentType::Uint];

    let ret = read_messages(
        &mut server,
        |sender_id, opcode| {
            if sender_id == 2 && opcode == 0 {
                Some(SIGNATURE)
            } else {
                None
            }
        },
        |message| {
            assert_eq_msgs(&message, &msg);
            true
        },
    );

    assert_eq!(ret, 1);
}

#[test]
fn read_stops_when_asked() {
    let mut client = BufferedSocket::new(());
    let mut server = BufferedSocket::new(());
    for op in 0..3u16 {
        let msg = Message { sender_id: 5, opcode: op, args: args(vec![Argument::Uint(op as u32)]) };
        write_message(&mut client, &msg);
    }
    transfer(&mut client, &mut server);
    const SIGNATURE: &[ArgumentType] = &[ArgumentType::Uint];
    let mut seen = Vec::new();
    let (count, stop) = server.read_messages_round(
        |_, _| Some(SIGNATURE),
        |message| {
            seen.push(message.opcode);
            false
        },
        0,
    );
    assert_eq!(count, 1);
    assert!(matches!(stop, ReadStop::Stopped));
    assert_eq!(seen, vec![0]);
    // the next round goes on with the second message, counting from what was dispatched
    let (count, stop) = server.read_messages_round(|_, _| Some(SIGNATURE), |_| true, count);
    assert_eq!(count, 3);
    assert!(matches!(stop, ReadStop::NeedData));
}

#[test]
fn read_stops_on_the_last_message() {
    let mut client = BufferedSocket::new(());
    let mut server = BufferedSocket::new(());
    let msg = Message { sender_id: 5, opcode: 0, args: args(vec![Argument::Uint(7)]) };
    write_message(&mut client, &msg);
    transfer(&mut client, &mut server);
    const SIGNATURE: &[ArgumentType] = &[ArgumentType::Uint];
    let mut calls = 0;
    let (count, stop) = server.read_messages_round(
        |_, _| Some(SIGNATURE),
        |_| {
            calls += 1;
            false
        },
        0,
    );
    // nothing is left, and still the round ends because the callback asked
    assert_eq!(count, 1);
    assert_eq!(calls, 1);
    assert!(matches!(stop, ReadStop::Stopped));
}

#[test]
fn read_unknown_object_is_malformed() {
    let mut client = BufferedSocket::new(());
    let mut server = BufferedSocket::new(());
    let msg = Message { sender_id: 9, opcode: 0, args: args(vec![]) };
    write_message(&mut client, &msg);
    transfer(&mut client, &mut server);
    let (count, stop) = server.read_messages_round(|_, _| None, |_| true, 0);
    assert_eq!(count, 0);
    assert!(matches!(stop, ReadStop::Malformed));
}

#[test]
fn read_one_message_needs_data() {
    let mut server: BufferedSocket<()> = BufferedSocket::new(());
    let r = server.read_one_message(|_, _| None);
    assert!(matches!(r, Err(MessageParseError::MissingData)));
}

#[test]
fn read_one_message_gives_the_message() {
    let mut client = BufferedSocket::new(());
    let mut server = BufferedSocket::new(());
    let msg = Message { sender_id: 4, opcode: 1, args: args(vec![Argument::Int(-3)]) };
    write_message(&mut client, &msg);
    transfer(&mut client, &mut server);
    const SIGNATURE: &[ArgumentType] = &[ArgumentType::Int];
    let got = server.read_one_message(|_, _| Some(SIGNATURE)).unwrap();
    assert_eq!(got, msg);
    let r = server.read_one_message(|_, _| Some(SIGNATURE));
    assert!(matches!(r, Err(MessageParseError::MissingData)));
}

#[test]
fn outgoing_buffer_fills_up() {
    let mut client: BufferedSocket<()> = BufferedSocket::new(());
    // a message of 2 + 1 + 256 words
    let big = Message {
        sender_id: 1,
        opcode: 0,
        args: args(vec![Argument::Array(Box::new(vec![7u8; 1024]))]),
    };
    let words_per_message = 2 + 1 + 256;
    let fitting = (MAX_BYTES_OUT / 4) / words_per_message;
    for _ in 0..fitting {
        assert!(client.attempt_write_message(&big).unwrap());
    }
    assert!(!client.attempt_write_message(&big).unwrap());
    let (bytes, fds) = client.pending_output().unwrap();
    assert_eq!(bytes.len(), fitting * words_per_message * 4);
    assert!(fds.is_empty());
    client.output_sent();
    assert!(client.pending_output().is_none());
    assert!(client.attempt_write_message(&big).unwrap());
}

#[test]
fn receive_nothing_means_closed() {
    let mut server: BufferedSocket<()> = BufferedSocket::new(());
    assert!(server.receive_incoming(&[], &[]).is_err());
}

#[test]
fn socket_is_kept() {
    let mut s = BufferedSocket::new(17u32);
    assert_eq!(*s.get_socket(), 17);
    *s.get_socket() = 18;
    assert_eq!(s.into_socket(), 18);
}
