use wayland_commons::wire::{Argument, ArgumentType, Message, MessageArgs, MessageParseError, MessageWriteError};

fn args(v: Vec<Argument>) -> MessageArgs {
    MessageArgs::from_vec(v)
}

fn sample_message() -> Message {
    Message {
        sender_id: 42,
        opcode: 7,
        args: args(vec![
            Argument::Uint(3),
            Argument::Fixed(-89),
            Argument::Str(Box::new(b"I like trains!".to_vec())),
            Argument::Array(Box::new(vec![1, 2, 3, 4, 5, 6, 7, 8, 9])),
            Argument::Object(88),
            Argument::NewId(56),
            Argument::Int(-25),
        ]),
    }
}

const SAMPLE_SIGNATURE: [ArgumentType; 7] = [
    ArgumentType::Uint,
    ArgumentType::Fixed,
    ArgumentType::Str,
    ArgumentType::Array,
    ArgumentType::Object,
    ArgumentType::NewId,
    ArgumentType::Int,
];

#[test]
fn into_from_raw_cycle() {
    let mut bytes_buffer = vec![0u32; 1024];
    let mut fd_buffer = vec![0i32; 10];

    let msg = sample_message();
    // write the message to the buffers
    msg.write_to_buffers(&mut bytes_buffer[..], &mut fd_buffer[..]).unwrap();
    // read them back
    let (rebuilt, _, _) =
        Message::from_raw(&bytes_buffer[..], &SAMPLE_SIGNATURE, &fd_buffer[..]).unwrap();
    assert_eq!(rebuilt, msg);
}

#[test]
fn written_words_and_counts() {
    let mut payload = vec![0u32; 1024];
    let mut fds = vec![0i32; 10];
    let msg = sample_message();
    let (words, nfds) = msg.write_to_buffers(&mut payload[..], &mut fds[..]).unwrap();
    // header, uint, fixed, string (len + 4 words), array (len + 3 words), object, new_id, int
    assert_eq!(words, 2 + 1 + 1 + (1 + 4) + (1 + 3) + 1 + 1 + 1);
    assert_eq!(nfds, 0);
    assert_eq!(payload[0], 42);
    assert_eq!(payload[1], ((words as u32 * 4) << 16) | 7);
    assert_eq!(payload[2], 3);
    assert_eq!(payload[3], (-89i32) as u32);
    // string length includes the terminating nul byte
    assert_eq!(payload[4], 15);
    assert_eq!(payload[9], 9);
    assert_eq!(payload[13], 88);
    assert_eq!(payload[14], 56);
    assert_eq!(payload[15], (-25i32) as u32);
}

#[test]
fn write_into_too_small_buffer() {
    let mut payload = vec![0u32; 4];
    let mut fds = vec![0i32; 10];
    let msg = sample_message();
    match msg.write_to_buffers(&mut payload[..], &mut fds[..]) {
        Err(MessageWriteError::BufferTooSmall) => {}
        other => panic!("unexpected result: {:?}", other),
    }
}

#[test]
fn parse_missing_data() {
    let raw = [42u32];
    let r = Message::from_raw(&raw, &[], &[]);
    assert!(matches!(r, Err(MessageParseError::MissingData)));
    // the signature asks for more words than the message holds
    let raw = [42u32, (12 << 16) | 1, 5];
    let r = Message::from_raw(&raw, &[ArgumentType::Uint, ArgumentType::Uint], &[]);
    assert!(matches!(r, Err(MessageParseError::MissingData)));
}

#[test]
fn parse_malformed_length() {
    // the header announces more words than there are
    let raw = [42u32, (16 << 16) | 1, 5];
    let r = Message::from_raw(&raw, &[ArgumentType::Uint], &[]);
    assert!(matches!(r, Err(MessageParseError::Malformed)));
    // the header announces less than a header
    let raw = [42u32, (4 << 16) | 1];
    let r = Message::from_raw(&raw, &[], &[]);
    assert!(matches!(r, Err(MessageParseError::Malformed)));
}

#[test]
fn parse_missing_fd() {
    let raw = [3u32, (8 << 16) | 0];
    let r = Message::from_raw(&raw, &[ArgumentType::Fd], &[]);
    assert!(matches!(r, Err(MessageParseError::MissingFD)));
}

#[test]
fn parse_fd_takes_from_fd_buffer() {
    let raw = [3u32, (8 << 16) | 2, 99];
    let fds = [17i32, 18];
    let (msg, rest, rest_fds) = Message::from_raw(&raw, &[ArgumentType::Fd], &fds).unwrap();
    assert_eq!(msg.sender_id, 3);
    assert_eq!(msg.opcode, 2);
    assert_eq!(msg.args.as_slice(), &[Argument::Fd(17)][..]);
    assert_eq!(rest, &[99u32][..]);
    assert_eq!(rest_fds, &[18i32][..]);
}

#[test]
fn parse_malformed_string() {
    // a string of length 0 is not allowed
    let raw = [3u32, (12 << 16) | 0, 0];
    let r = Message::from_raw(&raw, &[ArgumentType::Str], &[]);
    assert!(matches!(r, Err(MessageParseError::Malformed)));
    // a string whose last byte is not nul
    let word = u32::from_ne_bytes([b'a', b'b', b'c', b'd']);
    let raw = [3u32, (16 << 16) | 0, 4, word];
    let r = Message::from_raw(&raw, &[ArgumentType::Str], &[]);
    assert!(matches!(r, Err(MessageParseError::Malformed)));
}

#[test]
fn argument_types() {
    for (arg, ty) in sample_message().args.as_slice().iter().zip(SAMPLE_SIGNATURE.iter()) {
        assert_eq!(arg.get_type(), *ty);
    }
    assert_eq!(Argument::Fd(3).get_type(), ArgumentType::Fd);
}

#[test]
fn message_args_keep_order() {
    let mut a = MessageArgs::new();
    assert_eq!(a.len(), 0);
    a.push(Argument::Int(1));
    a.push(Argument::Uint(2));
    assert_eq!(a.len(), 2);
    assert_eq!(a.as_slice(), &[Argument::Int(1), Argument::Uint(2)][..]);
}

#[test]
fn wire_error_messages() {
    assert_eq!(MessageWriteError::BufferTooSmall.message(), "The provided buffer is too small to hold message content.");
    assert_eq!(
        MessageWriteError::DupFdFailed(nix::errno::Errno::EBADF).message(),
        "The message contains a file descriptor that could not be dup()-ed."
    );
    assert_eq!(MessageParseError::MissingFD.message(), "The message references a FD but the buffer FD is empty.");
    assert_eq!(MessageParseError::MissingData.message(), "More data is needed to deserialize the message");
    assert_eq!(MessageParseError::Malformed.message(), "The message is malformed and cannot be parsed");
}

#[test]
fn written_descriptors_are_duplicates() {
    let mut payload = vec![0u32; 16];
    let mut fds = vec![-1i32; 4];
    let msg = Message { sender_id: 3, opcode: 1, args: args(vec![Argument::Fd(2), Argument::Uint(5), Argument::Fd(1)]) };
    let (words, nfds) = msg.write_to_buffers(&mut payload[..], &mut fds[..]).unwrap();
    assert_eq!((words, nfds), (3, 2));
    // each slot holds a copy of the descriptor, not the descriptor itself
    assert!(fds[0] != -1 && fds[0] != 2);
    assert!(fds[1] != -1 && fds[1] != 1 && fds[1] != fds[0]);
    assert_eq!(&fds[2..], &[-1, -1]);
    nix::unistd::close(fds[0]).unwrap();
    nix::unistd::close(fds[1]).unwrap();
}
