//! Types and routines used to manipulate arguments from the wire format

use vstd::prelude::*;

use crate::fd::close_fd;
pub use crate::fd::dup_fd_cloexec;
use crate::protocol::Interface;
use crate::words::{
    bytes_of_word, lemma_bytes_of_word_len, lemma_bytes_word_bytes, lemma_unpack_pack,
    lemma_word_bytes_word, pack_bytes, packed_chunk, padded_words, unpack_bytes, word_from_ne_bytes,
    word_of_bytes, word_to_ne_bytes,
};

verus! {

/// Wire metadata of a given message
#[derive(Copy, Clone, Debug)]
pub struct MessageDesc {
    /// Name of this message
    pub name: &'static str,
    /// Signature of the message
    pub signature: &'static [ArgumentType],
    /// Minimum required version of the interface
    pub since: u32,
    /// Whether this message is a destructor
    pub destructor: bool,
    /// Interface of the object this message creates, if it creates one whose
    /// interface the protocol fixes
    pub child_interface: Option<&'static Interface>,
}

/// Enum of possible argument types as recognized by the wire
#[derive(Copy, Clone, PartialEq, Eq, Structural, Debug)]
pub enum ArgumentType {
    /// i32
    Int,
    /// u32
    Uint,
    /// fixed point, 1/256 precision
    Fixed,
    /// CString
    Str,
    /// id of a wayland object
    Object,
    /// id of a newly created wayland object
    NewId,
    /// Vec<u8>
    Array,
    /// RawFd
    Fd,
}

/// Enum of possible argument as recognized by the wire, including values
#[derive(Clone, PartialEq, Debug)]
pub enum Argument {
    /// i32
    Int(i32),
    /// u32
    Uint(u32),
    /// fixed point, 1/256 precision
    Fixed(i32),
    /// A string: its bytes, without the terminating nul byte
    Str(Box<Vec<u8>>),
    /// id of a wayland object
    Object(u32),
    /// id of a newly created wayland object
    NewId(u32),
    /// Vec<u8>
    Array(Box<Vec<u8>>),
    /// RawFd
    Fd(i32),
}

/// The value of an argument, with its byte contents as sequences.
pub enum ArgValue {
    Int(i32),
    Uint(u32),
    Fixed(i32),
    Str(Seq<u8>),
    Object(u32),
    NewId(u32),
    Array(Seq<u8>),
    Fd(i32),
}

impl View for Argument {
    type V = ArgValue;

    open spec fn view(&self) -> ArgValue {
        match self {
            Argument::Int(i) => ArgValue::Int(*i),
            Argument::Uint(u) => ArgValue::Uint(*u),
            Argument::Fixed(f) => ArgValue::Fixed(*f),
            Argument::Str(s) => ArgValue::Str(s@),
            Argument::Object(o) => ArgValue::Object(*o),
            Argument::NewId(n) => ArgValue::NewId(*n),
            Argument::Array(a) => ArgValue::Array(a@),
            Argument::Fd(fd) => ArgValue::Fd(*fd),
        }
    }
}

/// The wire type of an argument value.
pub open spec fn arg_type(a: ArgValue) -> ArgumentType {
    match a {
        ArgValue::Int(_) => ArgumentType::Int,
        ArgValue::Uint(_) => ArgumentType::Uint,
        ArgValue::Fixed(_) => ArgumentType::Fixed,
        ArgValue::Str(_) => ArgumentType::Str,
        ArgValue::Object(_) => ArgumentType::Object,
        ArgValue::NewId(_) => ArgumentType::NewId,
        ArgValue::Array(_) => ArgumentType::Array,
        ArgValue::Fd(_) => ArgumentType::Fd,
    }
}

/// The signature that a list of argument values has.
pub open spec fn signature_of(args: Seq<ArgValue>) -> Seq<ArgumentType> {
    args.map_values(|a: ArgValue| arg_type(a))
}

impl Argument {
    /// Retrieve the type of a given argument instance
    pub fn get_type(&self) -> (t: ArgumentType)
        ensures
            t == arg_type(self@),
    {
        match *self {
            Argument::Int(_) => ArgumentType::Int,
            Argument::Uint(_) => ArgumentType::Uint,
            Argument::Fixed(_) => ArgumentType::Fixed,
            Argument::Str(_) => ArgumentType::Str,
            Argument::Object(_) => ArgumentType::Object,
            Argument::NewId(_) => ArgumentType::NewId,
            Argument::Array(_) => ArgumentType::Array,
            Argument::Fd(_) => ArgumentType::Fd,
        }
    }
}

/// The arguments of a message, kept inline for up to four of them.
#[verifier::external_body]
#[derive(PartialEq, Debug)]
pub struct MessageArgs {
    inner: smallvec::SmallVec<[Argument; 4]>,
}

/// The arguments that a `MessageArgs` holds, in order.
pub uninterp spec fn message_args_contents(args: MessageArgs) -> Seq<Argument>;

impl View for MessageArgs {
    type V = Seq<ArgValue>;

    open spec fn view(&self) -> Seq<ArgValue> {
        message_args_contents(*self).map_values(|a: Argument| a@)
    }
}

impl MessageArgs {
    /// `SmallVec::new`: an empty list.
    #[verifier::external_body]
    fn small_vec_new() -> (r: MessageArgs)
        ensures
            message_args_contents(r) == Seq::<Argument>::empty(),
    {
        MessageArgs { inner: smallvec::SmallVec::new() }
    }

    /// `SmallVec::push`: appends `arg` at the end.
    #[verifier::external_body]
    fn small_vec_push(&mut self, arg: Argument)
        ensures
            message_args_contents(*final(self)) == message_args_contents(*old(self)).push(arg),
    {
        self.inner.push(arg)
    }

    /// `SmallVec::len`: the number of arguments held.
    #[verifier::external_body]
    fn small_vec_len(&self) -> (n: usize)
        ensures
            n == message_args_contents(*self).len(),
    {
        self.inner.len()
    }

    /// `SmallVec` indexing, for writing (it panics past the end): the
    /// argument at `index` becomes `arg`.
    #[verifier::external_body]
    fn small_vec_set(&mut self, index: usize, arg: Argument)
        requires
            index < message_args_contents(*old(self)).len(),
        ensures
            message_args_contents(*final(self)) == message_args_contents(*old(self)).update(
                index as int,
                arg,
            ),
    {
        self.inner[index] = arg;
    }

    /// `SmallVec::as_slice`: the arguments held, as a slice.
    #[verifier::external_body]
    fn small_vec_as_slice(&self) -> (s: &[Argument])
        ensures
            s@ == message_args_contents(*self),
    {
        self.inner.as_slice()
    }

    /// An empty list of arguments.
    pub fn new() -> (r: MessageArgs)
        ensures
            message_args_contents(r) == Seq::<Argument>::empty(),
    {
        MessageArgs::small_vec_new()
    }

    /// Appends `arg` at the end.
    pub fn push(&mut self, arg: Argument)
        ensures
            message_args_contents(*final(self)) == message_args_contents(*old(self)).push(arg),
    {
        self.small_vec_push(arg)
    }

    /// The number of arguments held.
    pub fn len(&self) -> (n: usize)
        ensures
            n == message_args_contents(*self).len(),
    {
        self.small_vec_len()
    }

    /// Replaces the argument at `index` by `arg`.
    pub fn set(&mut self, index: usize, arg: Argument)
        requires
            index < message_args_contents(*old(self)).len(),
        ensures
            message_args_contents(*final(self)) == message_args_contents(*old(self)).update(
                index as int,
                arg,
            ),
    {
        self.small_vec_set(index, arg)
    }

    /// The arguments held, in order, as a slice.
    pub fn as_slice(&self) -> (s: &[Argument])
        ensures
            s@ == message_args_contents(*self),
    {
        self.small_vec_as_slice()
    }

    /// Builds the list holding the arguments of `v`, in order.
    pub fn from_vec(v: Vec<Argument>) -> (r: MessageArgs)
        ensures
            message_args_contents(r) == v@,
    {
        let mut r = MessageArgs::new();
        let mut v = v;
        let ghost orig = v@;
        while v.len() > 0
            invariant
                orig == message_args_contents(r) + v@,
            decreases v.len(),
        {
            let a = v.remove(0);
            let ghost before = message_args_contents(r);
            r.push(a);
            assert(orig =~= message_args_contents(r) + v@) by {
                assert(before.push(a) + v@ =~= before + (seq![a] + v@));
            }
        }
        assert(orig =~= message_args_contents(r));
        r
    }
}


/// Error generated when trying to serialize a message into buffers
#[derive(Debug, Clone)]
pub enum MessageWriteError {
    /// The buffer is too small to hold the message contents
    BufferTooSmall,
    /// The message contains a FD that could not be dup-ed
    DupFdFailed(nix::errno::Errno),
}

/// Error generated when trying to deserialize a message from buffers
#[derive(Debug, Clone, PartialEq, Eq, Structural)]
pub enum MessageParseError {
    /// The message references a FD but the buffer FD is empty
    MissingFD,
    /// More data is needed to deserialize the message
    MissingData,
    /// The message is malformed and cannot be parsed
    Malformed,
}

impl MessageWriteError {
    /// What the error says.
    pub fn message(&self) -> (r: String)
        ensures
            r@ == match self {
                MessageWriteError::BufferTooSmall => "The provided buffer is too small to hold message content."@,
                MessageWriteError::DupFdFailed(_) => "The message contains a file descriptor that could not be dup()-ed."@,
            },
    {
        match self {
            MessageWriteError::BufferTooSmall => "The provided buffer is too small to hold message content.".to_owned(),
            MessageWriteError::DupFdFailed(_) => "The message contains a file descriptor that could not be dup()-ed.".to_owned(),
        }
    }
}

impl MessageParseError {
    /// What the error says.
    pub fn message(&self) -> (r: String)
        ensures
            r@ == match self {
                MessageParseError::MissingFD => "The message references a FD but the buffer FD is empty."@,
                MessageParseError::MissingData => "More data is needed to deserialize the message"@,
                MessageParseError::Malformed => "The message is malformed and cannot be parsed"@,
            },
    {
        match self {
            MessageParseError::MissingFD => "The message references a FD but the buffer FD is empty.".to_owned(),
            MessageParseError::MissingData => "More data is needed to deserialize the message".to_owned(),
            MessageParseError::Malformed => "The message is malformed and cannot be parsed".to_owned(),
        }
    }
}

/// A wire message
#[derive(Debug, PartialEq)]
pub struct Message {
    /// ID of the object sending this message
    pub sender_id: u32,
    /// Opcode of the message
    pub opcode: u16,
    /// Arguments of the message
    pub args: MessageArgs,
}

/// The value of a message.
pub struct MessageValue {
    /// ID of the object sending this message
    pub sender_id: u32,
    /// Opcode of the message
    pub opcode: u16,
    /// Values of the arguments
    pub args: Seq<ArgValue>,
}

impl View for Message {
    type V = MessageValue;

    open spec fn view(&self) -> MessageValue {
        MessageValue { sender_id: self.sender_id, opcode: self.opcode, args: self.args@ }
    }
}

/* ---------- the encoding of arguments ---------- */

/// Number of payload words an argument takes on the wire.
pub open spec fn arg_size(a: ArgValue) -> nat {
    match a {
        ArgValue::Str(s) => 1 + padded_words(s.len() + 1),
        ArgValue::Array(v) => 1 + padded_words(v.len()),
        ArgValue::Fd(_) => 0,
        _ => 1,
    }
}

/// Number of file descriptors an argument carries.
pub open spec fn arg_fds(a: ArgValue) -> nat {
    match a {
        ArgValue::Fd(_) => 1,
        _ => 0,
    }
}

/// An array on the wire: its length in bytes, then its bytes, padded to a
/// whole number of words; the padding bytes keep what `old` held there.
pub open spec fn array_words(data: Seq<u8>, old: Seq<u32>) -> Seq<u32> {
    seq![data.len() as u32] + pack_bytes(data, old.skip(1))
}

/// The payload words of an argument written over the words `old`.
pub open spec fn arg_words(a: ArgValue, old: Seq<u32>) -> Seq<u32> {
    match a {
        ArgValue::Int(i) => seq![i as u32],
        ArgValue::Uint(u) => seq![u],
        ArgValue::Fixed(f) => seq![f as u32],
        ArgValue::Str(s) => array_words(s.push(0u8), old),
        ArgValue::Object(o) => seq![o],
        ArgValue::NewId(n) => seq![n],
        ArgValue::Array(v) => array_words(v, old),
        ArgValue::Fd(_) => seq![],
    }
}

/// Number of payload words a list of arguments takes.
pub open spec fn args_size(args: Seq<ArgValue>) -> nat
    decreases args.len(),
{
    if args.len() == 0 {
        0
    } else {
        arg_size(args[0]) + args_size(args.drop_first())
    }
}

/// Number of file descriptors a list of arguments carries.
pub open spec fn args_fds(args: Seq<ArgValue>) -> nat
    decreases args.len(),
{
    if args.len() == 0 {
        0
    } else {
        arg_fds(args[0]) + args_fds(args.drop_first())
    }
}

/// The payload words of a list of arguments written over the words `old`.
pub open spec fn encode_args(args: Seq<ArgValue>, old: Seq<u32>) -> Seq<u32>
    decreases args.len(),
{
    if args.len() == 0 {
        seq![]
    } else {
        arg_words(args[0], old) + encode_args(args.drop_first(), old.skip(arg_size(args[0]) as int))
    }
}

/// The second header word: the message size in bytes in the upper half, the
/// opcode in the lower half.
pub open spec fn header_word(total_words: nat, opcode: u16) -> u32 {
    (((total_words * 4) as u32) << 16u32) | (opcode as u32)
}

/// Whether the first `k` arguments fit in `room` payload words and `fd_room`
/// descriptor slots.
pub open spec fn prefix_fits(args: Seq<ArgValue>, k: int, room: int, fd_room: int) -> bool {
    &&& args_size(args.take(k)) <= room
    &&& args_fds(args.take(k)) <= fd_room
}

/// The payload buffer after the first `k` arguments were written (the header
/// not yet).
pub open spec fn written_prefix(old: Seq<u32>, args: Seq<ArgValue>, k: int) -> Seq<u32> {
    old.take(2) + encode_args(args.take(k), old.skip(2)) + old.skip(2 + args_size(args.take(k)) as int)
}

/// The payload buffer after a whole message was written over `old`.
pub open spec fn written_message(old: Seq<u32>, m: MessageValue) -> Seq<u32> {
    seq![m.sender_id, header_word(2 + args_size(m.args), m.opcode)] + encode_args(m.args, old.skip(2))
        + old.skip(2 + args_size(m.args) as int)
}

/// An argument takes as many words as its size says.
pub proof fn lemma_arg_words_len(a: ArgValue, old: Seq<u32>)
    ensures
        arg_words(a, old).len() == arg_size(a),
{
    match a {
        ArgValue::Str(s) => {
            assert(s.push(0u8).len() == s.len() + 1);
        },
        _ => {},
    }
}

/// Arguments take as many words as their size says.
pub proof fn lemma_encode_len(args: Seq<ArgValue>, old: Seq<u32>)
    ensures
        encode_args(args, old).len() == args_size(args),
    decreases args.len(),
{
    if args.len() > 0 {
        lemma_arg_words_len(args[0], old);
        lemma_encode_len(args.drop_first(), old.skip(arg_size(args[0]) as int));
    }
}

/// Sizes of a list extended by one argument.
pub proof fn lemma_size_push(args: Seq<ArgValue>, a: ArgValue)
    ensures
        args_size(args.push(a)) == args_size(args) + arg_size(a),
        args_fds(args.push(a)) == args_fds(args) + arg_fds(a),
    decreases args.len(),
{
    if args.len() == 0 {
        assert(args.push(a).drop_first() =~= args);
    } else {
        lemma_size_push(args.drop_first(), a);
        assert(args.push(a).drop_first() =~= args.drop_first().push(a));
    }
}

/// Encoding of a list extended by one argument.
pub proof fn lemma_encode_push(args: Seq<ArgValue>, a: ArgValue, old: Seq<u32>)
    requires
        args_size(args) + arg_size(a) <= old.len(),
    ensures
        encode_args(args.push(a), old) == encode_args(args, old) + arg_words(a, old.skip(
            args_size(args) as int,
        )),
    decreases args.len(),
{
    lemma_size_push(args, a);
    if args.len() == 0 {
        assert(args.push(a).drop_first() =~= args);
        assert(old.skip(0) =~= old);
        assert(args.push(a)[0] == a);
        assert(encode_args(args, old.skip(arg_size(a) as int)) == Seq::<u32>::empty());
        assert(args_size(args) == 0);
        assert(encode_args(args.push(a), old) =~= arg_words(a, old));
    } else {
        let rest_old = old.skip(arg_size(args[0]) as int);
        lemma_size_push(args.drop_first(), a);
        lemma_encode_push(args.drop_first(), a, rest_old);
        assert(args.push(a).drop_first() =~= args.drop_first().push(a));
        assert(rest_old.skip(args_size(args.drop_first()) as int) =~= old.skip(
            args_size(args) as int,
        ));
        assert(encode_args(args.push(a), old) =~= encode_args(args, old) + arg_words(
            a,
            old.skip(args_size(args) as int),
        ));
    }
}

/// One more argument written after the first `i`.
proof fn lemma_written_step(old: Seq<u32>, vals: Seq<ArgValue>, i: int)
    requires
        0 <= i < vals.len(),
        2 + args_size(vals.take(i)) + arg_size(vals[i]) <= old.len(),
    ensures
        args_size(vals.take(i + 1)) == args_size(vals.take(i)) + arg_size(vals[i]),
        args_fds(vals.take(i + 1)) == args_fds(vals.take(i)) + arg_fds(vals[i]),
        encode_args(vals.take(i), old.skip(2)).len() == args_size(vals.take(i)),
        written_prefix(old, vals, i + 1) == old.take(2) + encode_args(vals.take(i), old.skip(2))
            + arg_words(vals[i], old.skip((2 + args_size(vals.take(i))) as int)) + old.skip(
            (2 + args_size(vals.take(i)) + arg_size(vals[i])) as int,
        ),
{
    assert(vals.take(i + 1) =~= vals.take(i).push(vals[i]));
    lemma_size_push(vals.take(i), vals[i]);
    lemma_encode_push(vals.take(i), vals[i], old.skip(2));
    lemma_encode_len(vals.take(i), old.skip(2));
    assert(old.skip(2).skip(args_size(vals.take(i)) as int) =~= old.skip(
        (2 + args_size(vals.take(i))) as int,
    ));
}

/// Sizes of one more argument, whether or not it fits.
proof fn lemma_take_step(vals: Seq<ArgValue>, i: int)
    requires
        0 <= i < vals.len(),
    ensures
        args_size(vals.take(i + 1)) == args_size(vals.take(i)) + arg_size(vals[i]),
        args_fds(vals.take(i + 1)) == args_fds(vals.take(i)) + arg_fds(vals[i]),
{
    assert(vals.take(i + 1) =~= vals.take(i).push(vals[i]));
    lemma_size_push(vals.take(i), vals[i]);
}

/// The byte at position `k` of `data`, followed by a nul byte when `nul`
/// holds, or `fallback` past its end.
fn chunk_byte(data: &[u8], nul: bool, k: usize, fallback: u8) -> (b: u8)
    ensures
        b == (if nul {
            packed_byte(data@.push(0u8), k as int, fallback)
        } else {
            packed_byte(data@, k as int, fallback)
        }),
{
    if k < data.len() {
        data[k]
    } else if nul && k == data.len() {
        0
    } else {
        fallback
    }
}

/// The byte at position `k` of `bytes`, or `fallback` past its end.
pub open spec fn packed_byte(bytes: Seq<u8>, k: int, fallback: u8) -> u8 {
    if k < bytes.len() {
        bytes[k]
    } else {
        fallback
    }
}

/// Write the bytes of `data` (followed by a nul byte when `nul` holds) as an
/// array at position `at` of the payload; returns the position after it.
fn write_array_to_payload(data: &[u8], nul: bool, payload: &mut [u32], at: usize) -> (r: Result<
    usize,
    MessageWriteError,
>)
    requires
        at <= old(payload)@.len(),
        old(payload)@.len() * 4 <= usize::MAX,
    ensures
        ({
            let bytes = if nul {
                data@.push(0u8)
            } else {
                data@
            };
            let size = 1 + padded_words(bytes.len());
            &&& final(payload)@.len() == old(payload)@.len()
            &&& r is Ok <==> at + size <= old(payload)@.len()
            &&& r is Ok ==> r == Ok::<usize, MessageWriteError>((at + size) as usize)
                && final(payload)@ == old(payload)@.take(at as int) + array_words(
                bytes,
                old(payload)@.skip(at as int),
            ) + old(payload)@.skip(at + size as int)
            &&& r is Err ==> (r matches Err(MessageWriteError::BufferTooSmall)) && final(payload)@
                == old(payload)@
        }),
{
    let ghost old_pay = payload@;
    let ghost bytes = if nul {
        data@.push(0u8)
    } else {
        data@
    };
    let n = data.len();
    // words needed for the bytes (with the nul byte if any)
    let wl: usize = if nul {
        n / 4 + 1
    } else {
        n / 4 + if n % 4 != 0 {
            1
        } else {
            0
        }
    };
    assert(wl == padded_words(bytes.len()));
    if payload.len() - at < 1 + wl {
        return Err(MessageWriteError::BufferTooSmall);
    }
    let total: usize = if nul {
        n + 1
    } else {
        n
    };
    payload[at] = total as u32;
    let ghost target = old_pay.take(at as int) + array_words(bytes, old_pay.skip(at as int))
        + old_pay.skip(at + 1 + wl as int);
    assert(pack_bytes(bytes, old_pay.skip(at as int).skip(1)).len() == wl);
    let mut w: usize = 0;
    while w < wl
        invariant
            0 <= w <= wl,
            at + 1 + wl <= old_pay.len(),
            old_pay.len() * 4 <= usize::MAX,
            data@.len() == n,
            bytes == (if nul {
                data@.push(0u8)
            } else {
                data@
            }),
            wl == padded_words(bytes.len()),
            target.len() == old_pay.len(),
            target == old_pay.take(at as int) + array_words(bytes, old_pay.skip(at as int))
                + old_pay.skip(at + 1 + wl as int),
            payload@.len() == old_pay.len(),
            forall|idx: int|
                0 <= idx < old_pay.len() ==> #[trigger] payload@[idx] == if at <= idx < at + 1 + w {
                    target[idx]
                } else {
                    old_pay[idx]
                },
        decreases wl - w,
    {
        let pos = at + 1 + w;
        let ob = word_to_ne_bytes(payload[pos]);
        let base = 4 * w;
        let chunk: [u8; 4] = [
            chunk_byte(data, nul, base, ob[0]),
            chunk_byte(data, nul, base + 1, ob[1]),
            chunk_byte(data, nul, base + 2, ob[2]),
            chunk_byte(data, nul, base + 3, ob[3]),
        ];
        let ghost oldw = old_pay.skip(at as int).skip(1);
        assert(oldw[w as int] == old_pay[pos as int]);
        assert(chunk@ =~= packed_chunk(bytes, oldw, w as int));
        let word = word_from_ne_bytes(chunk);
        payload[pos] = word;
        assert(target[pos as int] == word);
        w += 1;
    }
    assert(payload@ =~= target);
    Ok(at + 1 + wl)
}

/// Longer prefixes take at least as much room.
pub proof fn lemma_prefix_mono(vals: Seq<ArgValue>, j: int, k: int)
    requires
        0 <= j <= k <= vals.len(),
    ensures
        args_size(vals.take(j)) <= args_size(vals.take(k)),
        args_fds(vals.take(j)) <= args_fds(vals.take(k)),
    decreases k - j,
{
    if j < k {
        lemma_take_step(vals, k - 1);
        lemma_prefix_mono(vals, j, k - 1);
    }
}

/// Whether a whole message fits in buffers of the given lengths.
pub open spec fn message_fits(m: MessageValue, payload_len: int, fds_len: int) -> bool {
    &&& payload_len >= 2
    &&& prefix_fits(m.args, m.args.len() as int, payload_len - 2, fds_len)
}

/// The payload words after a write that stopped at argument `k`.
pub open spec fn payload_after_failure(old: Seq<u32>, args: Seq<ArgValue>, k: int) -> Seq<u32> {
    if old.len() < 2 {
        old
    } else {
        written_prefix(old, args, k)
    }
}

/// The outcome of a write that stopped before argument `k` could be completed.
pub open spec fn failed_at(
    m: MessageValue,
    old_payload: Seq<u32>,
    old_fds: Seq<i32>,
    payload: Seq<u32>,
    fds: Seq<i32>,
    e: MessageWriteError,
    k: int,
) -> bool {
    &&& 0 <= k < m.args.len() || (k == 0 && old_payload.len() < 2)
    &&& old_payload.len() >= 2 ==> prefix_fits(
        m.args,
        k,
        old_payload.len() - 2,
        old_fds.len() as int,
    )
    &&& payload == payload_after_failure(old_payload, m.args, k)
    &&& fds.skip(args_fds(m.args.take(k)) as int) == old_fds.skip(args_fds(m.args.take(k)) as int)
    &&& match e {
        MessageWriteError::BufferTooSmall => old_payload.len() < 2 || !prefix_fits(
            m.args,
            k + 1,
            old_payload.len() - 2,
            old_fds.len() as int,
        ),
        MessageWriteError::DupFdFailed(_) => 0 <= k < m.args.len() && m.args[k] is Fd,
    }
}

/// Close every descriptor of `fds`.
fn close_all(fds: &Vec<i32>) {
    let mut i: usize = 0;
    while i < fds.len()
        invariant
            i <= fds.len(),
        decreases fds.len() - i,
    {
        close_fd(fds[i]);
        i += 1;
    }
}

impl Message {
    /// Serialize the contents of this message into provided buffers
    ///
    /// Returns the number of elements written in each buffer
    ///
    /// Any serialized Fd will be `dup()`-ed in the process
    pub fn write_to_buffers(&self, payload: &mut [u32], fds: &mut [i32]) -> (r: Result<
        (usize, usize),
        MessageWriteError,
    >)
        requires
            old(payload)@.len() * 4 <= usize::MAX,
        ensures
            final(payload)@.len() == old(payload)@.len(),
            final(fds)@.len() == old(fds)@.len(),
            r is Ok ==> {
                &&& message_fits(self@, old(payload)@.len() as int, old(fds)@.len() as int)
                &&& r == Ok::<(usize, usize), MessageWriteError>(
                    ((2 + args_size(self@.args)) as usize, args_fds(self@.args) as usize),
                )
                &&& final(payload)@ == written_message(old(payload)@, self@)
                &&& final(fds)@.skip(args_fds(self@.args) as int) == old(fds)@.skip(
                    args_fds(self@.args) as int,
                )
                &&& forall|j: int|
                    0 <= j < args_fds(self@.args) ==> #[trigger] final(fds)@[j] != -1
            },
            message_fits(self@, old(payload)@.len() as int, old(fds)@.len() as int) ==> (r is Ok
                || (r matches Err(MessageWriteError::DupFdFailed(_)))),
            r matches Err(e) ==> exists|k: int|
                failed_at(self@, old(payload)@, old(fds)@, final(payload)@, final(fds)@, e, k),
    {
        let ghost old_pay = payload@;
        let ghost old_fds = fds@;
        let ghost vals = self@.args;
        let free_size = payload.len();
        if free_size < 2 {
            assert(failed_at(
                self@,
                old_pay,
                old_fds,
                payload@,
                fds@,
                MessageWriteError::BufferTooSmall,
                0,
            ));
            return Err(MessageWriteError::BufferTooSmall);
        }
        let args = self.args.as_slice();
        let n = args.len();
        assert(vals.len() == n);
        let mut pending: Vec<i32> = Vec::new();
        let mut p: usize = 2;
        let mut f: usize = 0;
        let mut i: usize = 0;
        assert(vals.take(0) =~= Seq::<ArgValue>::empty());
        assert(payload@ =~= written_prefix(old_pay, vals, 0));
        while i < n
            invariant
                0 <= i <= n,
                n == args@.len(),
                vals == self@.args,
                old_pay == old(payload)@,
                old_fds == old(fds)@,
                vals.len() == n,
                forall|j: int| 0 <= j < n ==> #[trigger] vals[j] == args@[j]@,
                old_pay.len() == free_size,
                free_size >= 2,
                free_size * 4 <= usize::MAX,
                p == 2 + args_size(vals.take(i as int)),
                f == args_fds(vals.take(i as int)),
                prefix_fits(vals, i as int, free_size - 2, old_fds.len() as int),
                payload@ == written_prefix(old_pay, vals, i as int),
                payload@.len() == old_pay.len(),
                fds@.len() == old_fds.len(),
                fds@.skip(f as int) == old_fds.skip(f as int),
                forall|j: int| 0 <= j < f ==> #[trigger] fds@[j] != -1,
            decreases n - i,
        {
            let arg = &args[i];
            let ghost a = vals[i as int];
            proof {
                lemma_take_step(vals, i as int);
            }
            match arg {
                Argument::Fd(fd) => {
                    let dup = dup_fd_cloexec(*fd);
                    match dup {
                        Err(e) => {
                            close_all(&pending);
                            assert(failed_at(
                                self@,
                                old_pay,
                                old_fds,
                                payload@,
                                fds@,
                                MessageWriteError::DupFdFailed(e),
                                i as int,
                            ));
                            return Err(MessageWriteError::DupFdFailed(e));
                        },
                        Ok(d) => {
                            pending.push(d);
                            if f >= fds.len() {
                                close_all(&pending);
                                proof {
                                    lemma_prefix_mono(vals, i + 1, n as int);
                                    assert(vals.take(n as int) =~= vals);
                                }
                                assert(failed_at(
                                    self@,
                                    old_pay,
                                    old_fds,
                                    payload@,
                                    fds@,
                                    MessageWriteError::BufferTooSmall,
                                    i as int,
                                ));
                                return Err(MessageWriteError::BufferTooSmall);
                            }
                            let ghost fds_before = fds@;
                            fds[f] = d;
                            f = f + 1;
                            assert(fds@.skip(f as int) =~= fds_before.skip(f as int));
                            assert(fds@.skip(f as int) =~= old_fds.skip(f as int)) by {
                                assert(fds_before.skip(f - 1) =~= old_fds.skip(f - 1));
                                assert forall|j: int| 0 <= j < fds@.len() - f implies fds@.skip(
                                    f as int,
                                )[j] == old_fds.skip(f as int)[j] by {
                                    assert(fds_before.skip(f - 1)[j + 1] == old_fds.skip(
                                        f - 1,
                                    )[j + 1]);
                                }
                            }
                            proof {
                                lemma_written_step(old_pay, vals, i as int);
                            }
                            assert(arg_words(a, old_pay.skip(p as int)) =~= Seq::<u32>::empty());
                            assert(payload@ =~= written_prefix(old_pay, vals, i + 1));
                        },
                    }
                },
                Argument::Str(s) => {
                    let v: &Vec<u8> = &**s;
                    let ghost before = payload@;
                    match write_array_to_payload(v.as_slice(), true, payload, p) {
                        Ok(np) => {
                            proof {
                                lemma_written_step(old_pay, vals, i as int);
                                assert(before.skip(p as int) =~= old_pay.skip(p as int));
                            }
                            p = np;
                            assert(payload@ =~= written_prefix(old_pay, vals, i + 1));
                        },
                        Err(e) => {
                            close_all(&pending);
                            proof {
                                lemma_prefix_mono(vals, i + 1, n as int);
                                assert(vals.take(n as int) =~= vals);
                            }
                            assert(failed_at(self@, old_pay, old_fds, payload@, fds@, e, i as int));
                            return Err(e);
                        },
                    }
                },
                Argument::Array(arr) => {
                    let v: &Vec<u8> = &**arr;
                    let ghost before = payload@;
                    match write_array_to_payload(v.as_slice(), false, payload, p) {
                        Ok(np) => {
                            proof {
                                lemma_written_step(old_pay, vals, i as int);
                                assert(before.skip(p as int) =~= old_pay.skip(p as int));
                            }
                            p = np;
                            assert(payload@ =~= written_prefix(old_pay, vals, i + 1));
                        },
                        Err(e) => {
                            close_all(&pending);
                            proof {
                                lemma_prefix_mono(vals, i + 1, n as int);
                                assert(vals.take(n as int) =~= vals);
                            }
                            assert(failed_at(self@, old_pay, old_fds, payload@, fds@, e, i as int));
                            return Err(e);
                        },
                    }
                },
                _ => {
                    let word: u32 = match arg {
                        Argument::Int(v) => #[verifier::truncate] (*v as u32),
                        Argument::Uint(v) => *v,
                        Argument::Fixed(v) => #[verifier::truncate] (*v as u32),
                        Argument::Object(v) => *v,
                        Argument::NewId(v) => *v,
                        _ => 0,
                    };
                    if p >= payload.len() {
                        close_all(&pending);
                        proof {
                            lemma_prefix_mono(vals, i + 1, n as int);
                            assert(vals.take(n as int) =~= vals);
                        }
                        assert(failed_at(
                            self@,
                            old_pay,
                            old_fds,
                            payload@,
                            fds@,
                            MessageWriteError::BufferTooSmall,
                            i as int,
                        ));
                        return Err(MessageWriteError::BufferTooSmall);
                    }
                    payload[p] = word;
                    proof {
                        lemma_written_step(old_pay, vals, i as int);
                    }
                    assert(arg_words(a, old_pay.skip(p as int)) =~= seq![word]);
                    p = p + 1;
                    assert(payload@ =~= written_prefix(old_pay, vals, i + 1));
                },
            }
            i += 1;
        }
        // every descriptor is in the buffer now: none of them is to be closed
        assert(vals.take(n as int) =~= vals);
        let wrote_size = p * 4;
        payload[0] = self.sender_id;
        payload[1] = ((#[verifier::truncate] (wrote_size as u32)) << 16u32) | (self.opcode as u32);
        assert(payload@ =~= written_message(old_pay, self@)) by {
            lemma_encode_len(vals, old_pay.skip(2));
        }
        Ok((p, f))
    }
}

/* ---------- parsing ---------- */

/// Whether `b` is the bytes of a C string: nul-terminated, no other nul byte.
pub open spec fn is_cstr(b: Seq<u8>) -> bool {
    &&& b.len() > 0
    &&& b.last() == 0
    &&& forall|i: int| 0 <= i < b.len() - 1 ==> b[i] != 0
}

/// Parse one argument of type `t` from word `p` of `payload` and descriptor
/// `f` of `fds`: the value, and the positions after it.
pub open spec fn parse_one(
    t: ArgumentType,
    payload: Seq<u32>,
    p: int,
    fds: Seq<i32>,
    f: int,
) -> Result<(ArgValue, int, int), MessageParseError> {
    if t == ArgumentType::Fd {
        if f < fds.len() {
            Ok((ArgValue::Fd(fds[f]), p, f + 1))
        } else {
            Err(MessageParseError::MissingFD)
        }
    } else if p >= payload.len() {
        Err(MessageParseError::MissingData)
    } else {
        let front = payload[p];
        match t {
            ArgumentType::Int => Ok((ArgValue::Int(front as i32), p + 1, f)),
            ArgumentType::Uint => Ok((ArgValue::Uint(front), p + 1, f)),
            ArgumentType::Fixed => Ok((ArgValue::Fixed(front as i32), p + 1, f)),
            ArgumentType::Object => Ok((ArgValue::Object(front), p + 1, f)),
            ArgumentType::NewId => Ok((ArgValue::NewId(front), p + 1, f)),
            ArgumentType::Str => {
                let n = front as nat;
                let wl = padded_words(n);
                if wl > payload.len() - (p + 1) {
                    Err(MessageParseError::MissingData)
                } else {
                    let bytes = unpack_bytes(payload.subrange(p + 1, p + 1 + wl), n);
                    if is_cstr(bytes) {
                        Ok((ArgValue::Str(bytes.take(n - 1)), p + 1 + wl, f))
                    } else {
                        Err(MessageParseError::Malformed)
                    }
                }
            },
            _ => {
                let n = front as nat;
                let wl = padded_words(n);
                if wl > payload.len() - (p + 1) {
                    Err(MessageParseError::MissingData)
                } else {
                    Ok(
                        (
                            ArgValue::Array(unpack_bytes(payload.subrange(p + 1, p + 1 + wl), n)),
                            p + 1 + wl,
                            f,
                        ),
                    )
                }
            },
        }
    }
}

/// Prepend parsed values to a parse result.
pub open spec fn prepend_args(
    acc: Seq<ArgValue>,
    r: Result<(Seq<ArgValue>, int, int), MessageParseError>,
) -> Result<(Seq<ArgValue>, int, int), MessageParseError> {
    match r {
        Ok((rest, p, f)) => Ok((acc + rest, p, f)),
        Err(e) => Err(e),
    }
}

/// Parse the arguments `sig[i..]` from word `p` of `payload` and descriptor
/// `f` of `fds`: the values, and the positions after them.
pub open spec fn parse_args(
    sig: Seq<ArgumentType>,
    i: int,
    payload: Seq<u32>,
    p: int,
    fds: Seq<i32>,
    f: int,
) -> Result<(Seq<ArgValue>, int, int), MessageParseError>
    decreases sig.len() - i,
{
    if i >= sig.len() || i < 0 {
        Ok((seq![], p, f))
    } else {
        match parse_one(sig[i], payload, p, fds, f) {
            Ok((a, p2, f2)) => prepend_args(seq![a], parse_args(sig, i + 1, payload, p2, fds, f2)),
            Err(e) => Err(e),
        }
    }
}

/// The size in words that the header of a message announces.
pub open spec fn announced_words(raw: Seq<u32>) -> int {
    ((raw[1] >> 16u32) as int) / 4
}

/// Parse the first message of `raw` with signature `sig`, taking its
/// descriptors from `fds`: the message, the words and descriptors it used.
pub open spec fn parse_message(raw: Seq<u32>, sig: Seq<ArgumentType>, fds: Seq<i32>) -> Result<
    (MessageValue, int, int),
    MessageParseError,
> {
    if raw.len() < 2 {
        Err(MessageParseError::MissingData)
    } else {
        let len = announced_words(raw);
        if len < 2 || len > raw.len() {
            Err(MessageParseError::Malformed)
        } else {
            match parse_args(sig, 0, raw.subrange(2, len), 0, fds, 0) {
                Ok((args, _p, f)) => Ok(
                    (
                        MessageValue {
                            sender_id: raw[0],
                            opcode: (raw[1] & 0xffffu32) as u16,
                            args,
                        },
                        len,
                        f,
                    ),
                ),
                Err(e) => Err(e),
            }
        }
    }
}

proof fn lemma_prepend_push(
    acc: Seq<ArgValue>,
    a: ArgValue,
    r: Result<(Seq<ArgValue>, int, int), MessageParseError>,
)
    ensures
        prepend_args(acc, prepend_args(seq![a], r)) == prepend_args(acc.push(a), r),
{
    match r {
        Ok((rest, p, f)) => {
            assert(acc + (seq![a] + rest) =~= acc.push(a) + rest);
        },
        Err(_) => {},
    }
}

/// Parsing moves forward and stays within the buffers.
pub proof fn lemma_parse_args_bounds(
    sig: Seq<ArgumentType>,
    i: int,
    payload: Seq<u32>,
    p: int,
    fds: Seq<i32>,
    f: int,
)
    requires
        0 <= p <= payload.len(),
        0 <= f <= fds.len(),
    ensures
        parse_args(sig, i, payload, p, fds, f) matches Ok((_, p2, f2)) ==> p <= p2 <= payload.len()
            && f <= f2 <= fds.len(),
    decreases sig.len() - i,
{
    if 0 <= i < sig.len() {
        match parse_one(sig[i], payload, p, fds, f) {
            Ok((a, p2, f2)) => {
                lemma_parse_args_bounds(sig, i + 1, payload, p2, fds, f2);
            },
            Err(_) => {},
        }
    }
}

/// A parsed message uses at least its header, and no more than the buffers.
pub proof fn lemma_parse_message_bounds(raw: Seq<u32>, sig: Seq<ArgumentType>, fds: Seq<i32>)
    ensures
        parse_message(raw, sig, fds) matches Ok((_, used, used_fds)) ==> 2 <= used <= raw.len() && 0
            <= used_fds <= fds.len(),
{
    if raw.len() >= 2 {
        let len = announced_words(raw);
        if 2 <= len <= raw.len() {
            lemma_parse_args_bounds(sig, 0, raw.subrange(2, len), 0, fds, 0);
        }
    }
}

/// Read `n` bytes from the words starting at `start`.
fn read_array(raw: &[u32], start: usize, n: usize) -> (bytes: Vec<u8>)
    requires
        start + padded_words(n as nat) <= raw@.len(),
    ensures
        bytes@ == unpack_bytes(raw@.subrange(start as int, start + padded_words(n as nat)), n as nat),
{
    let ghost words = raw@.subrange(start as int, start + padded_words(n as nat));
    let raw_len = raw.len();
    let mut bytes: Vec<u8> = Vec::new();
    let mut k: usize = 0;
    while k < n
        invariant
            0 <= k <= n,
            start + padded_words(n as nat) <= raw@.len(),
            raw_len == raw@.len(),
            words == raw@.subrange(start as int, start + padded_words(n as nat)),
            bytes@ == unpack_bytes(words, n as nat).take(k as int),
        decreases n - k,
    {
        assert(k / 4 < padded_words(n as nat)) by {
            assert(k / 4 <= n / 4) by (nonlinear_arith)
                requires
                    k < n,
            ;
            assert(k / 4 == n / 4 ==> n % 4 != 0) by (nonlinear_arith)
                requires
                    k < n,
            ;
        }
        let q: usize = k / 4;
        assert(start + q < raw@.len());
        let idx: usize = start + q;
        let w = word_to_ne_bytes(raw[idx]);
        proof {
            lemma_bytes_of_word_len(raw@[start + k / 4]);
        }
        bytes.push(w[k % 4]);
        k += 1;
        assert(bytes@ =~= unpack_bytes(words, n as nat).take(k as int));
    }
    assert(unpack_bytes(words, n as nat).take(n as int) =~= unpack_bytes(words, n as nat));
    bytes
}

/// Whether `bytes` is nul-terminated with no other nul byte.
fn check_cstr(bytes: &Vec<u8>) -> (ok: bool)
    ensures
        ok == is_cstr(bytes@),
{
    let n = bytes.len();
    if n == 0 || bytes[n - 1] != 0 {
        return false;
    }
    let mut i: usize = 0;
    while i < n - 1
        invariant
            n == bytes@.len(),
            n > 0,
            0 <= i <= n - 1,
            forall|j: int| 0 <= j < i ==> bytes@[j] != 0,
        decreases n - 1 - i,
    {
        if bytes[i] == 0 {
            return false;
        }
        i += 1;
    }
    true
}

impl Message {
    /// Attempts to parse a single wayland message with the given signature.
    ///
    /// If the buffers contains several messages, only the first one will be parsed,
    /// and the unused tail of the buffers is returned. If a single message was present,
    /// the returned slices should thus be empty.
    ///
    /// Errors if the message is malformed.
    pub fn from_raw<'a, 'b>(raw: &'a [u32], signature: &[ArgumentType], fds: &'b [i32]) -> (r:
        Result<(Message, &'a [u32], &'b [i32]), MessageParseError>)
        ensures
            r is Ok <==> parse_message(raw@, signature@, fds@) is Ok,
            r matches Ok((msg, rest, rest_fds)) ==> parse_message(raw@, signature@, fds@) matches Ok(
                (m, used, used_fds),
            ) && msg@ == m && rest@ == raw@.skip(used) && rest_fds@ == fds@.skip(used_fds),
            r matches Err(e) ==> parse_message(raw@, signature@, fds@) == Err::<
                (MessageValue, int, int),
                MessageParseError,
            >(e),
    {
        if raw.len() < 2 {
            return Err(MessageParseError::MissingData);
        }
        let sender_id = raw[0];
        let word_2 = raw[1];
        let opcode = (word_2 & 0x0000_FFFFu32) as u16;
        let len = ((word_2 >> 16u32) as usize) / 4;
        assert(len == announced_words(raw@));
        if len < 2 || len > raw.len() {
            return Err(MessageParseError::Malformed);
        }
        let ghost pl = raw@.subrange(2, len as int);
        let ghost sig = signature@;
        let mut args = MessageArgs::new();
        let mut p: usize = 0;
        let mut f: usize = 0;
        let mut i: usize = 0;
        let n = signature.len();
        assert(prepend_args(args@, parse_args(sig, 0, pl, 0, fds@, 0)) =~= parse_args(
            sig,
            0,
            pl,
            0,
            fds@,
            0,
        )) by {
            match parse_args(sig, 0, pl, 0, fds@, 0) {
                Ok((rest, _, _)) => {
                    assert(args@ + rest =~= rest);
                },
                Err(_) => {},
            }
        }
        while i < n
            invariant
                0 <= i <= n,
                n == sig.len(),
                sig == signature@,
                2 <= len <= raw@.len(),
                pl == raw@.subrange(2, len as int),
                p <= pl.len(),
                f <= fds@.len(),
                parse_args(sig, 0, pl, 0, fds@, 0) == prepend_args(
                    args@,
                    parse_args(sig, i as int, pl, p as int, fds@, f as int),
                ),
                parse_message(raw@, sig, fds@) == match parse_args(sig, 0, pl, 0, fds@, 0) {
                    Ok((args, _p, f)) => Ok(
                        (MessageValue { sender_id, opcode, args }, len as int, f),
                    ),
                    Err(e) => Err(e),
                },
            decreases n - i,
        {
            let t = signature[i];
            let ghost before = args@;
            let ghost step = parse_one(sig[i as int], pl, p as int, fds@, f as int);
            match t {
                ArgumentType::Fd => {
                    if f < fds.len() {
                        let a = Argument::Fd(fds[f]);
                        proof {
                            lemma_prepend_push(before, a@, parse_args(sig, i + 1, pl, p as int, fds@, f + 1));
                        }
                        args.push(a);
                        assert(args@ =~= before.push(a@));
                        f = f + 1;
                    } else {
                        assert(parse_args(sig, i as int, pl, p as int, fds@, f as int) == Err::<
                            (Seq<ArgValue>, int, int),
                            MessageParseError,
                        >(MessageParseError::MissingFD));
                        return Err(MessageParseError::MissingFD);
                    }
                },
                _ => {
                    if p >= len - 2 {
                        assert(parse_args(sig, i as int, pl, p as int, fds@, f as int) == Err::<
                            (Seq<ArgValue>, int, int),
                            MessageParseError,
                        >(MessageParseError::MissingData));
                        return Err(MessageParseError::MissingData);
                    }
                    let front = raw[2 + p];
                    assert(front == pl[p as int]);
                    let (a, np): (Argument, usize) = match t {
                        ArgumentType::Int => (Argument::Int(#[verifier::truncate] (front as i32)), p + 1),
                        ArgumentType::Uint => (Argument::Uint(front), p + 1),
                        ArgumentType::Fixed => (Argument::Fixed(#[verifier::truncate] (front as i32)), p + 1),
                        ArgumentType::Object => (Argument::Object(front), p + 1),
                        ArgumentType::NewId => (Argument::NewId(front), p + 1),
                        _ => {
                            let alen = front as usize;
                            let wl = alen / 4 + if alen % 4 != 0 {
                                1
                            } else {
                                0
                            };
                            if wl > (len - 2) - (p + 1) {
                                assert(parse_args(sig, i as int, pl, p as int, fds@, f as int)
                                    == Err::<(Seq<ArgValue>, int, int), MessageParseError>(
                                    MessageParseError::MissingData,
                                ));
                                return Err(MessageParseError::MissingData);
                            }
                            let mut bytes = read_array(raw, 2 + p + 1, alen);
                            assert(raw@.subrange(2 + p + 1, 2 + p + 1 + wl) =~= pl.subrange(
                                p + 1,
                                p + 1 + wl,
                            ));
                            if t == ArgumentType::Str {
                                if !check_cstr(&bytes) {
                                    assert(parse_args(sig, i as int, pl, p as int, fds@, f as int)
                                        == Err::<(Seq<ArgValue>, int, int), MessageParseError>(
                                        MessageParseError::Malformed,
                                    ));
                                    return Err(MessageParseError::Malformed);
                                }
                                let ghost whole = bytes@;
                                bytes.pop();
                                assert(bytes@ =~= whole.take(alen - 1));
                                (Argument::Str(Box::new(bytes)), p + 1 + wl)
                            } else {
                                (Argument::Array(Box::new(bytes)), p + 1 + wl)
                            }
                        },
                    };
                    assert(step == Ok::<(ArgValue, int, int), MessageParseError>((a@, np as int, f as int)));
                    proof {
                        lemma_prepend_push(before, a@, parse_args(sig, i + 1, pl, np as int, fds@, f as int));
                    }
                    args.push(a);
                    assert(args@ =~= before.push(a@));
                    p = np;
                },
            }
            i += 1;
        }
        let msg = Message { sender_id, opcode, args };
        let rest = vstd::slice::slice_subrange(raw, len, raw.len());
        let rest_fds = vstd::slice::slice_subrange(fds, f, fds.len());
        proof {
            assert(parse_args(sig, n as int, pl, p as int, fds@, f as int) == Ok::<
                (Seq<ArgValue>, int, int),
                MessageParseError,
            >((seq![], p as int, f as int)));
            assert(args@ + seq![] =~= args@);
        }
        Ok((msg, rest, rest_fds))
    }
}

/* ---------- what a write gives back when it is read ---------- */

/// No string among the arguments holds a nul byte (a C string cannot).
pub open spec fn strings_nul_free(args: Seq<ArgValue>) -> bool {
    forall|i: int|
        0 <= i < args.len() ==> (#[trigger] args[i] matches ArgValue::Str(s) ==> forall|j: int|
            0 <= j < s.len() ==> s[j] != 0)
}

/// The arguments with the `k`-th descriptor argument holding `fds[k]`.
pub open spec fn replace_fds(args: Seq<ArgValue>, fds: Seq<i32>) -> Seq<ArgValue>
    decreases args.len(),
{
    if args.len() == 0 {
        seq![]
    } else if args[0] is Fd {
        seq![ArgValue::Fd(fds[0])] + replace_fds(args.drop_first(), fds.drop_first())
    } else {
        seq![args[0]] + replace_fds(args.drop_first(), fds)
    }
}

proof fn lemma_padded_bound(n: nat)
    ensures
        n <= 4 * padded_words(n),
        padded_words(n) <= n / 4 + 1,
{
}

proof fn lemma_header_fields(total: u32, opcode: u16)
    requires
        total < 65536,
    ensures
        ((total << 16u32) | (opcode as u32)) >> 16u32 == total,
        (((total << 16u32) | (opcode as u32)) & 0xffffu32) as u16 == opcode,
{
    assert(((total << 16u32) | (opcode as u32)) >> 16u32 == total) by (bit_vector)
        requires
            total < 65536,
    ;
    assert((((total << 16u32) | (opcode as u32)) & 0xffffu32) as u16 == opcode) by (bit_vector);
}

proof fn lemma_int_roundtrip(i: i32)
    ensures
        (i as u32) as i32 == i,
{
    assert((i as u32) as i32 == i) by (bit_vector);
}

/// The words of an encoded array give back its length and its bytes.
proof fn lemma_read_back_array(data: Seq<u8>, payload: Seq<u32>, p: int, old: Seq<u32>)
    requires
        0 <= p,
        data.len() < 65536,
        p + 1 + padded_words(data.len()) <= payload.len(),
        1 + padded_words(data.len()) <= old.len(),
        payload.subrange(p, p + 1 + padded_words(data.len())) == array_words(data, old),
    ensures
        payload[p] as nat == data.len(),
        unpack_bytes(payload.subrange(p + 1, p + 1 + padded_words(data.len())), data.len())
            == data,
{
    let wl = padded_words(data.len());
    let packed = pack_bytes(data, old.skip(1));
    let words = array_words(data, old);
    let window = payload.subrange(p, p + 1 + wl);
    assert(packed.len() == wl);
    assert(words == seq![data.len() as u32] + packed);
    assert(window[0] == payload[p]);
    assert(words[0] == data.len() as u32);
    assert(payload.subrange(p + 1, p + 1 + wl) =~= packed) by {
        assert forall|k: int| 0 <= k < wl implies #[trigger] payload.subrange(
            p + 1,
            p + 1 + wl,
        )[k] == packed[k] by {
            assert(window[k + 1] == payload[p + 1 + k]);
            assert(words[k + 1] == packed[k]);
        }
    }
    lemma_unpack_pack(data, old.skip(1));
}

/// One encoded argument parses back to itself (a descriptor argument to the
/// descriptor found in the buffer).
#[verifier::rlimit(40)]
proof fn lemma_parse_one_encoded(
    a: ArgValue,
    payload: Seq<u32>,
    p: int,
    old: Seq<u32>,
    fds: Seq<i32>,
    f: int,
)
    requires
        0 <= p,
        0 <= f,
        p + arg_size(a) <= payload.len(),
        arg_size(a) <= old.len(),
        arg_size(a) < 16384,
        payload.subrange(p, p + arg_size(a)) == arg_words(a, old),
        f + arg_fds(a) <= fds.len(),
        a matches ArgValue::Str(s) ==> forall|j: int| 0 <= j < s.len() ==> s[j] != 0,
    ensures
        parse_one(arg_type(a), payload, p, fds, f) == Ok::<(ArgValue, int, int), MessageParseError>(
            (
                if a is Fd {
                    ArgValue::Fd(fds[f])
                } else {
                    a
                },
                p + arg_size(a),
                f + arg_fds(a),
            ),
        ),
{
    lemma_arg_words_len(a, old);
    match a {
        ArgValue::Str(s) => {
            let data = s.push(0u8);
            let n = data.len();
            lemma_padded_bound(n);
            lemma_read_back_array(data, payload, p, old);
            let wl = padded_words(n);
            let bytes = unpack_bytes(payload.subrange(p + 1, p + 1 + wl), n);
            assert(is_cstr(bytes)) by {
                assert forall|j: int| 0 <= j < bytes.len() - 1 implies bytes[j] != 0 by {
                    assert(bytes[j] == s[j]);
                }
            }
            assert(bytes.take(n - 1) =~= s);
        },
        ArgValue::Array(v) => {
            lemma_padded_bound(v.len());
            lemma_read_back_array(v, payload, p, old);
        },
        ArgValue::Fd(_) => {},
        ArgValue::Int(i) => {
            assert(payload[p] == arg_words(a, old)[0]);
            lemma_int_roundtrip(i);
        },
        ArgValue::Fixed(i) => {
            assert(payload[p] == arg_words(a, old)[0]);
            lemma_int_roundtrip(i);
        },
        _ => {
            assert(payload[p] == arg_words(a, old)[0]);
        },
    }
}

/// The encoded arguments `args[i..]` parse back to themselves.
proof fn lemma_parse_encoded(
    args: Seq<ArgValue>,
    i: int,
    payload: Seq<u32>,
    p: int,
    old: Seq<u32>,
    fds: Seq<i32>,
    f: int,
)
    requires
        0 <= i <= args.len(),
        0 <= p,
        0 <= f,
        strings_nul_free(args),
        args_size(args.skip(i)) < 16384,
        p + args_size(args.skip(i)) <= payload.len(),
        args_size(args.skip(i)) <= old.len(),
        payload.subrange(p, p + args_size(args.skip(i))) == encode_args(args.skip(i), old),
        f + args_fds(args.skip(i)) <= fds.len(),
    ensures
        parse_args(signature_of(args), i, payload, p, fds, f) == Ok::<
            (Seq<ArgValue>, int, int),
            MessageParseError,
        >(
            (
                replace_fds(args.skip(i), fds.skip(f)),
                p + args_size(args.skip(i)),
                f + args_fds(args.skip(i)),
            ),
        ),
    decreases args.len() - i,
{
    let suffix = args.skip(i);
    if i == args.len() {
        assert(suffix.len() == 0);
    } else {
        let a = args[i];
        assert(suffix[0] == a);
        assert(suffix.drop_first() =~= args.skip(i + 1));
        let sz = arg_size(a);
        let rest_size = args_size(args.skip(i + 1));
        lemma_arg_words_len(a, old);
        lemma_encode_len(args.skip(i + 1), old.skip(sz as int));
        let enc = encode_args(suffix, old);
        assert(enc == arg_words(a, old) + encode_args(args.skip(i + 1), old.skip(sz as int)));
        assert(payload.subrange(p, p + sz) =~= arg_words(a, old)) by {
            assert(payload.subrange(p, p + sz) =~= enc.subrange(0, sz as int));
        }
        assert(payload.subrange(p + sz, p + sz + rest_size) =~= encode_args(
            args.skip(i + 1),
            old.skip(sz as int),
        )) by {
            assert(payload.subrange(p + sz, p + sz + rest_size) =~= enc.subrange(
                sz as int,
                (sz + rest_size) as int,
            ));
        }
        assert(a matches ArgValue::Str(s) ==> forall|j: int| 0 <= j < s.len() ==> s[j] != 0) by {
            assert(args[i] == a);
        }
        lemma_parse_one_encoded(a, payload, p, old, fds, f);
        assert(signature_of(args)[i] == arg_type(a));
        lemma_parse_encoded(args, i + 1, payload, p + sz, old.skip(sz as int), fds, f + arg_fds(a));
        let next = parse_args(signature_of(args), i + 1, payload, p + sz, fds, f + arg_fds(a));
        let replaced = replace_fds(args.skip(i + 1), fds.skip(f + arg_fds(a)));
        if a is Fd {
            assert(fds.skip(f).drop_first() =~= fds.skip(f + 1));
            assert(fds.skip(f)[0] == fds[f]);
            assert(replace_fds(suffix, fds.skip(f)) =~= seq![ArgValue::Fd(fds[f])] + replaced);
        } else {
            assert(replace_fds(suffix, fds.skip(f)) =~= seq![a] + replaced);
        }
    }
}

/// A message written into buffers reads back as the same message; each of
/// its descriptor arguments reads back as the descriptor stored in its slot
/// of the descriptor buffer.
///
/// This needs the message to fit the buffers, its strings to hold no nul
/// byte, and its size in bytes to fit the 16 bits the header gives it.
pub proof fn law_write_then_parse(m: MessageValue, old: Seq<u32>, fds: Seq<i32>)
    requires
        message_fits(m, old.len() as int, fds.len() as int),
        strings_nul_free(m.args),
        (2 + args_size(m.args)) * 4 < 65536,
    ensures
        parse_message(written_message(old, m), signature_of(m.args), fds) == Ok::<
            (MessageValue, int, int),
            MessageParseError,
        >(
            (
                MessageValue {
                    sender_id: m.sender_id,
                    opcode: m.opcode,
                    args: replace_fds(m.args, fds),
                },
                (2 + args_size(m.args)) as int,
                args_fds(m.args) as int,
            ),
        ),
{
    let args = m.args;
    let size = args_size(args);
    let total = 2 + size;
    assert(args.take(args.len() as int) =~= args);
    let raw = written_message(old, m);
    lemma_encode_len(args, old.skip(2));
    assert(raw.len() == old.len());
    lemma_header_fields((total * 4) as u32, m.opcode);
    assert(raw[1] == header_word(total, m.opcode));
    assert(announced_words(raw) == total);
    assert(args.skip(0) =~= args);
    assert(fds.skip(0) =~= fds);
    let pl = raw.subrange(2, total as int);
    assert(pl.subrange(0, size as int) =~= encode_args(args, old.skip(2)));
    lemma_parse_encoded(args, 0, pl, 0, old.skip(2), fds, 0);
}

} // verus!
