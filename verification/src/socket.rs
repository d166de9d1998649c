//! Buffering of the data a Wayland socket sends and receives
//!
//! The socket itself (sending and receiving, the descriptors it owns) is the
//! caller's: the buffered socket carries it and hands it back, and does all the
//! buffering and framing around it.

use vstd::prelude::*;

use crate::wire::{
    announced_words, args_fds, args_size, law_write_then_parse, lemma_parse_message_bounds,
    message_fits, parse_message, prefix_fits, replace_fds, signature_of, strings_nul_free,
    written_message, ArgumentType, Message, MessageParseError, MessageValue, MessageWriteError,
};
use crate::words::{
    bytes_of_word, lemma_bytes_of_word_len, lemma_word_bytes_word, pack_bytes, packed_chunk,
    padded_words, word_from_ne_bytes, word_of_bytes, word_to_ne_bytes,
};

verus! {

/// Maximum number of FD that can be sent in a single socket message
pub const MAX_FDS_OUT: usize = 28;

/// Maximum number of bytes that can be sent in a single socket message
pub const MAX_BYTES_OUT: usize = 4096;

/// A buffer: its storage, how much of it is filled, and how much of that was
/// already read.
pub struct Buffer<T: Copy> {
    storage: Vec<T>,
    occupied: usize,
    offset: usize,
}

impl<T: Copy> Buffer<T> {
    /// The whole storage.
    pub closed spec fn storage(&self) -> Seq<T> {
        self.storage@
    }

    /// How many elements of the storage are filled.
    pub closed spec fn occupied(&self) -> nat {
        self.occupied as nat
    }

    /// How many of the filled elements were already read.
    pub closed spec fn read_offset(&self) -> nat {
        self.offset as nat
    }

    /// Well-formed: the read part lies in the filled part, which lies in the
    /// storage.
    pub open spec fn wf(&self) -> bool {
        self.read_offset() <= self.occupied() <= self.storage().len()
    }

    /// The filled elements not read yet.
    pub open spec fn contents(&self) -> Seq<T> {
        self.storage().subrange(self.read_offset() as int, self.occupied() as int)
    }

    /// Room left after the filled part.
    pub open spec fn room(&self) -> nat {
        (self.storage().len() - self.occupied()) as nat
    }
}

impl<T: Copy + Default> Buffer<T> {
    /// An empty buffer with storage for `size` elements.
    pub fn new(size: usize) -> (b: Buffer<T>)
        ensures
            b.wf(),
            b.storage().len() == size,
            b.occupied() == 0,
            b.read_offset() == 0,
    {
        Buffer { storage: vec![T::default(); size], occupied: 0, offset: 0 }
    }
}

impl<T: Copy> Buffer<T> {
    /// Check if this buffer has content to read
    pub fn has_content(&self) -> (r: bool)
        ensures
            r == (self.occupied() > self.read_offset()),
    {
        self.occupied > self.offset
    }

    /// Advance the internal counter of occupied space
    pub fn advance(&mut self, bytes: usize)
        requires
            old(self).wf(),
            old(self).occupied() + bytes <= old(self).storage().len(),
        ensures
            final(self).wf(),
            final(self).storage() == old(self).storage(),
            final(self).occupied() == old(self).occupied() + bytes,
            final(self).read_offset() == old(self).read_offset(),
    {
        assert(self.storage@.len() == self.storage.len());
        self.occupied = self.occupied + bytes;
    }

    /// Advance the read offset of current occupied space
    pub fn offset(&mut self, bytes: usize)
        requires
            old(self).wf(),
            old(self).read_offset() + bytes <= old(self).occupied(),
        ensures
            final(self).wf(),
            final(self).storage() == old(self).storage(),
            final(self).occupied() == old(self).occupied(),
            final(self).read_offset() == old(self).read_offset() + bytes,
    {
        self.offset = self.offset + bytes;
    }

    /// Clears the contents of the buffer
    ///
    /// This only sets the counter of occupied space back to zero,
    /// allowing previous content to be overwritten.
    pub fn clear(&mut self)
        ensures
            final(self).wf(),
            final(self).storage() == old(self).storage(),
            final(self).occupied() == 0,
            final(self).read_offset() == 0,
    {
        self.occupied = 0;
        self.offset = 0;
    }

    /// Get the current contents of the occupied space of the buffer
    pub fn get_contents(&self) -> (r: &[T])
        requires
            self.wf(),
        ensures
            r@ == self.contents(),
    {
        vstd::slice::slice_subrange(self.storage.as_slice(), self.offset, self.occupied)
    }

    /// Get mutable access to the unoccupied space of the buffer
    pub fn get_writable_storage(&mut self) -> (r: &mut [T])
        requires
            old(self).wf(),
        ensures
            r@ == old(self).storage().skip(old(self).occupied() as int),
            final(self).storage() == old(self).storage().take(old(self).occupied() as int)
                + final(r)@,
            final(self).occupied() == old(self).occupied(),
            final(self).read_offset() == old(self).read_offset(),
    {
        let occ = self.occupied;
        let s = self.storage.as_mut_slice();
        let (_head, tail) = s.split_at_mut(occ);
        tail
    }

    /// Move the unread contents of the buffer to the front, to ensure
    /// maximal write space availability
    pub fn move_to_front(&mut self)
        requires
            old(self).wf(),
        ensures
            final(self).wf(),
            final(self).read_offset() == 0,
            final(self).contents() == old(self).contents(),
            final(self).storage().len() == old(self).storage().len(),
    {
        let n = self.occupied - self.offset;
        let ghost before = self.storage@;
        let ghost off = self.offset as int;
        let mut i: usize = 0;
        while i < n
            invariant
                0 <= i <= n,
                n == self.occupied - self.offset,
                self.offset == off,
                self.offset <= self.occupied <= before.len(),
                self.storage@.len() == before.len(),
                forall|j: int| 0 <= j < i ==> #[trigger] self.storage@[j] == before[off + j],
                forall|j: int| i <= j < before.len() ==> #[trigger] self.storage@[j] == before[j],
            decreases n - i,
        {
            let v = self.storage[self.offset + i];
            self.storage.set(i, v);
            i += 1;
        }
        self.occupied = n;
        self.offset = 0;
        assert(self.contents() =~= before.subrange(off, off + n));
    }
}

/// All the bytes of `words`, in memory order.
pub open spec fn words_to_bytes(words: Seq<u32>) -> Seq<u8> {
    Seq::new(words.len() * 4, |k: int| bytes_of_word(words[k / 4])[k % 4])
}

/// An adapter around a socket that directly handles buffering and
/// conversion from/to wayland messages
pub struct BufferedSocket<S> {
    socket: S,
    in_data: Buffer<u32>,
    in_fds: Buffer<i32>,
    out_data: Buffer<u32>,
    out_fds: Buffer<i32>,
}

impl<S> BufferedSocket<S> {
    /// The socket carried.
    pub closed spec fn socket(&self) -> S {
        self.socket
    }

    /// Incoming words.
    pub closed spec fn in_data(&self) -> Buffer<u32> {
        self.in_data
    }

    /// Incoming descriptors.
    pub closed spec fn in_fds(&self) -> Buffer<i32> {
        self.in_fds
    }

    /// Outgoing words.
    pub closed spec fn out_data(&self) -> Buffer<u32> {
        self.out_data
    }

    /// Outgoing descriptors.
    pub closed spec fn out_fds(&self) -> Buffer<i32> {
        self.out_fds
    }

    /// Well-formed: the four buffers are, with their storage of fixed size.
    pub open spec fn wf(&self) -> bool {
        &&& self.in_data().wf()
        &&& self.in_fds().wf()
        &&& self.out_data().wf()
        &&& self.out_fds().wf()
        &&& self.in_data().storage().len() == 2 * MAX_BYTES_OUT / 4
        &&& self.in_fds().storage().len() == 2 * MAX_FDS_OUT
        &&& self.out_data().storage().len() == MAX_BYTES_OUT / 4
        &&& self.out_fds().storage().len() == MAX_FDS_OUT
    }

    /// Wrap a Socket into a Buffered Socket
    pub fn new(socket: S) -> (r: BufferedSocket<S>)
        ensures
            r.wf(),
            r.socket() == socket,
            r.in_data().contents().len() == 0,
            r.in_fds().contents().len() == 0,
            r.out_data().contents().len() == 0,
            r.out_fds().contents().len() == 0,
    {
        BufferedSocket {
            socket,
            // Incoming buffers are twice as big in order to be
            // able to store leftover data if needed
            in_data: Buffer::new(2 * MAX_BYTES_OUT / 4),
            in_fds: Buffer::new(2 * MAX_FDS_OUT),
            out_data: Buffer::new(MAX_BYTES_OUT / 4),
            out_fds: Buffer::new(MAX_FDS_OUT),
        }
    }

    /// Get direct access to the underlying socket
    pub fn get_socket(&mut self) -> (r: &mut S)
        ensures
            *r == old(self).socket(),
            final(self).socket() == *final(r),
            final(self).in_data() == old(self).in_data(),
            final(self).in_fds() == old(self).in_fds(),
            final(self).out_data() == old(self).out_data(),
            final(self).out_fds() == old(self).out_fds(),
    {
        &mut self.socket
    }

    /// Retrieve ownership of the underlying Socket
    ///
    /// Any leftover content in the internal buffers will be lost
    pub fn into_socket(self) -> (r: S)
        ensures
            r == self.socket(),
    {
        self.socket
    }

    /// Attempts to write a message in the outgoing buffers; `Ok(false)` means
    /// there is not enough room left in them.
    pub fn attempt_write_message(&mut self, msg: &Message) -> (r: Result<bool, nix::errno::Errno>)
        requires
            old(self).wf(),
        ensures
            final(self).wf(),
            final(self).socket() == old(self).socket(),
            final(self).in_data() == old(self).in_data(),
            final(self).in_fds() == old(self).in_fds(),
            r matches Ok(true) ==> {
                let d = old(self).out_data();
                let f = old(self).out_fds();
                &&& message_fits(msg@, d.room() as int, f.room() as int)
                &&& final(self).out_data().storage() == d.storage().take(d.occupied() as int)
                    + written_message(d.storage().skip(d.occupied() as int), msg@)
                &&& final(self).out_data().occupied() == d.occupied() + 2 + args_size(msg@.args)
                &&& final(self).out_data().read_offset() == d.read_offset()
                &&& final(self).out_fds().occupied() == f.occupied() + args_fds(msg@.args)
                &&& final(self).out_fds().read_offset() == f.read_offset()
                &&& final(self).out_fds().storage().take(f.occupied() as int) == f.storage().take(
                    f.occupied() as int,
                )
            },
            message_fits(
                msg@,
                old(self).out_data().room() as int,
                old(self).out_fds().room() as int,
            ) ==> !(r matches Ok(false)),
            r is Err ==> exists|k: int| 0 <= k < msg@.args.len() && #[trigger] msg@.args[k] is Fd,
            !(r matches Ok(true)) ==> {
                &&& final(self).out_data().contents() == old(self).out_data().contents()
                &&& final(self).out_fds().contents() == old(self).out_fds().contents()
                &&& final(self).out_data().occupied() == old(self).out_data().occupied()
                &&& final(self).out_fds().occupied() == old(self).out_fds().occupied()
            },
    {
        let ghost d = self.out_data;
        let ghost f = self.out_fds;
        let written = msg.write_to_buffers(
            self.out_data.get_writable_storage(),
            self.out_fds.get_writable_storage(),
        );
        assert(self.out_data.storage@.take(d.occupied as int) =~= d.storage@.take(
            d.occupied as int,
        ));
        assert(self.out_fds.storage@.take(f.occupied as int) =~= f.storage@.take(
            f.occupied as int,
        ));
        assert(self.out_data.contents() =~= d.contents());
        assert(self.out_fds.contents() =~= f.contents());
        match written {
            Ok((bytes_out, fds_out)) => {
                assert(msg@.args.take(msg@.args.len() as int) =~= msg@.args);
                assert(bytes_out + d.occupied <= self.out_data.storage@.len());
                self.out_data.advance(bytes_out);
                self.out_fds.advance(fds_out);
                Ok(true)
            },
            Err(MessageWriteError::BufferTooSmall) => Ok(false),
            Err(MessageWriteError::DupFdFailed(e)) => Err(e),
        }
    }
}

/// What reading one message with the signature `sig` does to the incoming
/// buffers `data` and `fds` (becoming `new_data` and `new_fds`) and returns.
pub open spec fn read_effect(
    data: Buffer<u32>,
    fds: Buffer<i32>,
    new_data: Buffer<u32>,
    new_fds: Buffer<i32>,
    sig: Option<&'static [ArgumentType]>,
    r: Result<Message, MessageParseError>,
) -> bool {
    let unchanged = new_data == data && new_fds == fds;
    match sig {
        None => r == Err::<Message, MessageParseError>(MessageParseError::Malformed) && unchanged,
        Some(s) => match parse_message(data.contents(), s@, fds.contents()) {
            Ok((m, used, used_fds)) => {
                &&& r matches Ok(msg) && msg@ == m
                &&& new_data.storage() == data.storage()
                &&& new_data.occupied() == data.occupied()
                &&& new_data.read_offset() == data.read_offset() + used
                &&& new_fds.storage() == fds.storage()
                &&& new_fds.occupied() == fds.occupied()
                &&& new_fds.read_offset() == fds.read_offset() + used_fds
            },
            Err(e) => r == Err::<Message, MessageParseError>(e) && unchanged,
        },
    }
}

/// The object id and opcode at the head of the words, when there is a
/// header there.
pub open spec fn header_of(words: Seq<u32>) -> (u32, u16) {
    (words[0], (words[1] & 0x0000_FFFFu32) as u16)
}

/// How a round of reading buffered messages ended.
pub enum ReadStop {
    /// A malformed message was met
    Malformed,
    /// The message handler asked to stop; what is left waits for the next
    /// read
    Stopped,
    /// More data is needed
    NeedData,
}

/// Copy `data` into the words starting at `at`, as the memory of those words.
fn copy_bytes_into(words: &mut [u32], at: usize, data: &[u8])
    requires
        at + padded_words(data@.len()) <= old(words)@.len(),
        old(words)@.len() * 4 <= usize::MAX,
    ensures
        final(words)@ == old(words)@.take(at as int) + pack_bytes(data@, old(words)@.skip(at as int))
            + old(words)@.skip(at + padded_words(data@.len())),
{
    let ghost old_w = words@;
    let n = data.len();
    let wl: usize = n / 4 + if n % 4 != 0 {
        1
    } else {
        0
    };
    let ghost target = old_w.take(at as int) + pack_bytes(data@, old_w.skip(at as int)) + old_w.skip(
        at + wl,
    );
    let mut w: usize = 0;
    while w < wl
        invariant
            0 <= w <= wl,
            wl == padded_words(data@.len()),
            n == data@.len(),
            at + wl <= old_w.len(),
            old_w.len() * 4 <= usize::MAX,
            target == old_w.take(at as int) + pack_bytes(data@, old_w.skip(at as int))
                + old_w.skip(at + wl),
            words@.len() == old_w.len(),
            forall|idx: int|
                0 <= idx < old_w.len() ==> #[trigger] words@[idx] == if at <= idx < at + w {
                    target[idx]
                } else {
                    old_w[idx]
                },
        decreases wl - w,
    {
        let pos = at + w;
        let ob = word_to_ne_bytes(words[pos]);
        let base = 4 * w;
        let chunk: [u8; 4] = [
            if base < n {
                data[base]
            } else {
                ob[0]
            },
            if base + 1 < n {
                data[base + 1]
            } else {
                ob[1]
            },
            if base + 2 < n {
                data[base + 2]
            } else {
                ob[2]
            },
            if base + 3 < n {
                data[base + 3]
            } else {
                ob[3]
            },
        ];
        let ghost oldw = old_w.skip(at as int);
        assert(oldw[w as int] == old_w[pos as int]);
        assert(chunk@ =~= packed_chunk(data@, oldw, w as int));
        let word = word_from_ne_bytes(chunk);
        words[pos] = word;
        w += 1;
    }
    assert(words@ =~= target);
}

impl<S> BufferedSocket<S> {
    /// The outgoing data to send: the bytes of the outgoing words and the
    /// outgoing descriptors; nothing when no word is waiting.
    pub fn pending_output(&self) -> (r: Option<(Vec<u8>, Vec<i32>)>)
        requires
            self.wf(),
        ensures
            r is None <==> self.out_data().contents().len() == 0,
            r matches Some((b, f)) ==> b@ == words_to_bytes(self.out_data().contents()) && f@
                == self.out_fds().contents(),
    {
        let words = self.out_data.get_contents();
        if words.len() == 0 {
            return None;
        }
        let mut bytes: Vec<u8> = Vec::new();
        let n = words.len();
        let mut i: usize = 0;
        while i < n
            invariant
                0 <= i <= n,
                n == words@.len(),
                n <= MAX_BYTES_OUT / 4,
                bytes@ == words_to_bytes(words@).take(4 * i),
            decreases n - i,
        {
            let b = word_to_ne_bytes(words[i]);
            proof {
                lemma_bytes_of_word_len(words@[i as int]);
            }
            bytes.push(b[0]);
            bytes.push(b[1]);
            bytes.push(b[2]);
            bytes.push(b[3]);
            i += 1;
            assert(bytes@ =~= words_to_bytes(words@).take(4 * i));
        }
        assert(words_to_bytes(words@).take(4 * n) =~= words_to_bytes(words@));
        let fds = vstd::slice::slice_to_vec(self.out_fds.get_contents());
        Some((bytes, fds))
    }

    /// The outgoing data was sent: empty the outgoing buffers.
    pub fn output_sent(&mut self)
        requires
            old(self).wf(),
        ensures
            final(self).wf(),
            final(self).socket() == old(self).socket(),
            final(self).in_data() == old(self).in_data(),
            final(self).in_fds() == old(self).in_fds(),
            final(self).out_data().contents().len() == 0,
            final(self).out_fds().contents().len() == 0,
            final(self).out_data().occupied() == 0,
            final(self).out_fds().occupied() == 0,
    {
        self.out_data.clear();
        self.out_fds.clear();
    }

    /// Prepare a new round of receiving: empty incoming buffers whose content
    /// was all read.
    pub fn prepare_incoming(&mut self)
        requires
            old(self).wf(),
        ensures
            final(self).wf(),
            final(self).socket() == old(self).socket(),
            final(self).out_data() == old(self).out_data(),
            final(self).out_fds() == old(self).out_fds(),
            final(self).in_data().contents() == old(self).in_data().contents(),
            final(self).in_fds().contents() == old(self).in_fds().contents(),
            final(self).in_data().storage() == old(self).in_data().storage(),
            final(self).in_fds().storage() == old(self).in_fds().storage(),
            old(self).in_data().contents().len() == 0 ==> final(self).in_data().occupied() == 0,
            old(self).in_data().contents().len() != 0 ==> final(self).in_data() == old(
                self,
            ).in_data(),
            old(self).in_fds().contents().len() == 0 ==> final(self).in_fds().occupied() == 0,
            old(self).in_fds().contents().len() != 0 ==> final(self).in_fds() == old(
                self,
            ).in_fds(),
    {
        if !self.in_data.has_content() {
            self.in_data.clear();
        }
        if !self.in_fds.has_content() {
            self.in_fds.clear();
        }
        assert(self.in_data.contents() =~= old(self).in_data.contents());
        assert(self.in_fds.contents() =~= old(self).in_fds.contents());
    }

    /// Room for receiving: in bytes, and in descriptors.
    pub fn incoming_room(&self) -> (r: (usize, usize))
        requires
            self.wf(),
        ensures
            r.0 == self.in_data().room() * 4,
            r.1 == self.in_fds().room(),
    {
        (
            (self.in_data.storage.len() - self.in_data.occupied) * 4,
            self.in_fds.storage.len() - self.in_fds.occupied,
        )
    }

    /// Store received data in the incoming buffers. No bytes means the other
    /// end of the socket was closed: nothing is stored and `Err(())` returned.
    pub fn receive_incoming(&mut self, bytes: &[u8], fds: &[i32]) -> (r: Result<(), ()>)
        requires
            old(self).wf(),
            bytes@.len() <= old(self).in_data().room() * 4,
            fds@.len() <= old(self).in_fds().room(),
        ensures
            final(self).wf(),
            final(self).socket() == old(self).socket(),
            final(self).out_data() == old(self).out_data(),
            final(self).out_fds() == old(self).out_fds(),
            r is Err <==> bytes@.len() == 0,
            r is Err ==> final(self).in_data() == old(self).in_data() && final(self).in_fds() == old(
                self,
            ).in_fds(),
            r is Ok ==> {
                let d = old(self).in_data();
                let f = old(self).in_fds();
                let words = padded_words(bytes@.len());
                &&& final(self).in_data().storage() == d.storage().take(d.occupied() as int)
                    + pack_bytes(bytes@, d.storage().skip(d.occupied() as int)) + d.storage().skip(
                    (d.occupied() + words) as int,
                )
                &&& final(self).in_data().occupied() == d.occupied() + words
                &&& final(self).in_data().read_offset() == d.read_offset()
                &&& final(self).in_fds().storage() == f.storage().take(f.occupied() as int) + fds@
                    + f.storage().skip((f.occupied() + fds@.len()) as int)
                &&& final(self).in_fds().occupied() == f.occupied() + fds@.len()
                &&& final(self).in_fds().read_offset() == f.read_offset()
            },
    {
        let in_bytes = bytes.len();
        if in_bytes == 0 {
            // the other end of the socket was closed
            return Err(());
        }
        let occ = self.in_data.occupied;
        let wl = in_bytes / 4 + if in_bytes % 4 > 0 {
            1
        } else {
            0
        };
        assert(wl == padded_words(bytes@.len()));
        copy_bytes_into(self.in_data.storage.as_mut_slice(), occ, bytes);
        self.in_data.advance(wl);
        assert(self.in_data.storage@ == old(self).in_data.storage@.take(occ as int) + pack_bytes(
            bytes@,
            old(self).in_data.storage@.skip(occ as int),
        ) + old(self).in_data.storage@.skip(occ + wl));
        let focc = self.in_fds.occupied;
        let ghost old_f = self.in_fds.storage@;
        let ghost mid_data = self.in_data;
        assert(old_f.len() == 2 * MAX_FDS_OUT);
        let nf = fds.len();
        let mut i: usize = 0;
        while i < nf
            invariant
                0 <= i <= nf,
                nf == fds@.len(),
                focc + nf <= old_f.len(),
                old_f.len() == 2 * MAX_FDS_OUT,
                self.in_data == mid_data,
                self.socket == old(self).socket,
                self.out_data == old(self).out_data,
                self.out_fds == old(self).out_fds,
                self.in_fds.storage@.len() == old_f.len(),
                self.in_fds.occupied == focc,
                self.in_fds.offset == old(self).in_fds.offset,
                self.in_fds.offset <= focc,
                forall|j: int|
                    0 <= j < old_f.len() ==> #[trigger] self.in_fds.storage@[j] == if focc <= j
                        < focc + i {
                        fds@[j - focc]
                    } else {
                        old_f[j]
                    },
            decreases nf - i,
        {
            self.in_fds.storage.set(focc + i, fds[i]);
            i += 1;
        }
        assert(self.in_fds.storage@ =~= old_f.take(focc as int) + fds@ + old_f.skip(focc + nf));
        self.in_fds.advance(nf);
        assert(self.in_data.occupied == occ + wl);
        assert(self.in_fds.occupied == focc + nf);
        Ok(())
    }

    /// The header at the head of the incoming data: object id and opcode.
    fn peek_header(&self) -> (r: Option<(u32, u16)>)
        requires
            self.wf(),
        ensures
            r is None <==> self.in_data().contents().len() < 2,
            r matches Some(h) ==> h == header_of(self.in_data().contents()),
    {
        let data = self.in_data.get_contents();
        if data.len() < 2 {
            return None;
        }
        Some((data[0], (data[1] & 0x0000_FFFFu32) as u16))
    }

    /// Read one message from the incoming buffers with the given signature.
    fn read_with_signature(&mut self, sig: Option<&'static [ArgumentType]>) -> (r: Result<
        Message,
        MessageParseError,
    >)
        requires
            old(self).wf(),
        ensures
            final(self).wf(),
            final(self).socket() == old(self).socket(),
            final(self).out_data() == old(self).out_data(),
            final(self).out_fds() == old(self).out_fds(),
            read_effect(
                old(self).in_data(),
                old(self).in_fds(),
                final(self).in_data(),
                final(self).in_fds(),
                sig,
                r,
            ),
    {
        match sig {
            None => Err(MessageParseError::Malformed),
            Some(s) => {
                let (msg, read_data, read_fd) = {
                    let data = self.in_data.get_contents();
                    let fds = self.in_fds.get_contents();
                    proof {
                        lemma_parse_message_bounds(data@, s@, fds@);
                    }
                    match Message::from_raw(data, s, fds) {
                        Ok((msg, rest_data, rest_fds)) => (
                            msg,
                            data.len() - rest_data.len(),
                            fds.len() - rest_fds.len(),
                        ),
                        Err(e) => {
                            return Err(e);
                        },
                    }
                };
                self.in_data.offset(read_data);
                self.in_fds.offset(read_fd);
                Ok(msg)
            },
        }
    }

    /// Read and deserialize a single message from the incoming buffers socket
    ///
    /// This method requires one closure that given an object id and an opcode,
    /// must provide the signature of the associated request/event, in the form of
    /// a `&'static [ArgumentType]`. If it returns `None`, meaning that
    /// the couple object/opcode does not exist, an error will be returned.
    pub fn read_one_message<F>(&mut self, signature: F) -> (r: Result<Message, MessageParseError>)
        where F: FnMut(u32, u16) -> Option<&'static [ArgumentType]>
        requires
            old(self).wf(),
            forall|id: u32, opcode: u16| #[trigger] signature.requires((id, opcode)),
        ensures
            final(self).wf(),
            final(self).socket() == old(self).socket(),
            final(self).out_data() == old(self).out_data(),
            final(self).out_fds() == old(self).out_fds(),
            old(self).in_data().contents().len() < 2 ==> r == Err::<Message, MessageParseError>(
                MessageParseError::MissingData,
            ) && final(self).in_data() == old(self).in_data() && final(self).in_fds() == old(
                self,
            ).in_fds(),
            old(self).in_data().contents().len() >= 2 ==> exists|sig: Option<&'static [ArgumentType]>|
                {
                    &&& #[trigger] signature.ensures(header_of(old(self).in_data().contents()), sig)
                    &&& read_effect(
                        old(self).in_data(),
                        old(self).in_fds(),
                        final(self).in_data(),
                        final(self).in_fds(),
                        sig,
                        r,
                    )
                },
    {
        let mut signature = signature;
        match self.peek_header() {
            None => Err(MessageParseError::MissingData),
            Some((object_id, opcode)) => {
                let sig = signature(object_id, opcode);
                self.read_with_signature(sig)
            },
        }
    }
}

/// The words at the head of the data do not form a whole message yet: there
/// is no header, or the message of the signature given for it lacks data or
/// descriptors.
pub open spec fn needs_data<F: FnMut(u32, u16) -> Option<&'static [ArgumentType]>>(
    signature: F,
    data: Seq<u32>,
    fds: Seq<i32>,
) -> bool {
    data.len() < 2 || exists|sig: Option<&'static [ArgumentType]>|
        #[trigger] signature.ensures(header_of(data), sig) && (sig matches Some(s) && (parse_message(
            data,
            s@,
            fds,
        ) matches Err(e) && e != MessageParseError::Malformed))
}

/// The message at the head of the data is malformed: no signature was given
/// for its header, or it does not parse with the one given.
pub open spec fn meets_malformed<F: FnMut(u32, u16) -> Option<&'static [ArgumentType]>>(
    signature: F,
    data: Seq<u32>,
    fds: Seq<i32>,
) -> bool {
    data.len() >= 2 && exists|sig: Option<&'static [ArgumentType]>|
        #[trigger] signature.ensures(header_of(data), sig) && (sig is None || parse_message(
            data,
            sig.unwrap()@,
            fds,
        ) == Err::<(crate::wire::MessageValue, int, int), MessageParseError>(
            MessageParseError::Malformed,
        ))
}

/// Message `i` of `msgs` is at word `offs[i]` and descriptor `foffs[i]` of
/// the data, and is read there, with the signature `sigs[i]` that
/// `signature` gives for its header, up to where message `i + 1` starts.
pub open spec fn read_at<F: FnMut(u32, u16) -> Option<&'static [ArgumentType]>>(
    signature: F,
    data: Seq<u32>,
    fds: Seq<i32>,
    msgs: Seq<MessageValue>,
    sigs: Seq<&'static [ArgumentType]>,
    offs: Seq<int>,
    foffs: Seq<int>,
    i: int,
) -> bool {
    &&& 0 <= offs[i] <= data.len()
    &&& 0 <= foffs[i] <= fds.len()
    &&& signature.ensures(header_of(data.skip(offs[i])), Some(sigs[i]))
    &&& parse_message(data.skip(offs[i]), sigs[i]@, fds.skip(foffs[i])) == Ok::<
        (MessageValue, int, int),
        MessageParseError,
    >((msgs[i], offs[i + 1] - offs[i], foffs[i + 1] - foffs[i]))
}

/// The data starts with the messages `msgs`, read one after the other with
/// the signatures `sigs` that `signature` gives for their headers: message
/// `i` starts at word `offs[i]` and descriptor `foffs[i]` of the data, and
/// the next message where it ends.
pub open spec fn reads_in_order<F: FnMut(u32, u16) -> Option<&'static [ArgumentType]>>(
    signature: F,
    data: Seq<u32>,
    fds: Seq<i32>,
    msgs: Seq<MessageValue>,
    sigs: Seq<&'static [ArgumentType]>,
    offs: Seq<int>,
    foffs: Seq<int>,
) -> bool {
    &&& sigs.len() == msgs.len()
    &&& offs.len() == msgs.len() + 1
    &&& foffs.len() == msgs.len() + 1
    &&& offs[0] == 0
    &&& foffs[0] == 0
    &&& 0 <= offs.last() <= data.len()
    &&& 0 <= foffs.last() <= fds.len()
    &&& forall|i: int|
        0 <= i < msgs.len() ==> #[trigger] read_at(signature, data, fds, msgs, sigs, offs, foffs, i)
}

/// Reading one more message extends the messages read in order.
proof fn lemma_reads_one_more<F: FnMut(u32, u16) -> Option<&'static [ArgumentType]>>(
    signature: F,
    data: Seq<u32>,
    fds: Seq<i32>,
    msgs: Seq<MessageValue>,
    sigs: Seq<&'static [ArgumentType]>,
    offs: Seq<int>,
    foffs: Seq<int>,
    m: MessageValue,
    s: &'static [ArgumentType],
    used: int,
    fused: int,
)
    requires
        reads_in_order(signature, data, fds, msgs, sigs, offs, foffs),
        0 <= used,
        0 <= fused,
        offs.last() + used <= data.len(),
        foffs.last() + fused <= fds.len(),
        signature.ensures(header_of(data.skip(offs.last())), Some(s)),
        parse_message(data.skip(offs.last()), s@, fds.skip(foffs.last())) == Ok::<
            (MessageValue, int, int),
            MessageParseError,
        >((m, used, fused)),
    ensures
        reads_in_order(
            signature,
            data,
            fds,
            msgs.push(m),
            sigs.push(s),
            offs.push(offs.last() + used),
            foffs.push(foffs.last() + fused),
        ),
{
    let n = msgs.len() as int;
    let msgs2 = msgs.push(m);
    let sigs2 = sigs.push(s);
    let offs2 = offs.push(offs.last() + used);
    let foffs2 = foffs.push(foffs.last() + fused);
    assert forall|i: int| 0 <= i < msgs2.len() implies #[trigger] read_at(
        signature,
        data,
        fds,
        msgs2,
        sigs2,
        offs2,
        foffs2,
        i,
    ) by {
        if i < n {
            assert(read_at(signature, data, fds, msgs, sigs, offs, foffs, i));
            assert(msgs2[i] == msgs[i]);
            assert(sigs2[i] == sigs[i]);
            assert(offs2[i] == offs[i] && offs2[i + 1] == offs[i + 1]);
            assert(foffs2[i] == foffs[i] && foffs2[i + 1] == foffs[i + 1]);
        }
    }
}

/// The messages were handed to `callback`, in order, as `given`, which
/// answered `keeps`.
pub open spec fn handed_to<F: FnMut(Message) -> bool>(
    callback: F,
    msgs: Seq<MessageValue>,
    given: Seq<Message>,
    keeps: Seq<bool>,
) -> bool {
    &&& given.len() == msgs.len()
    &&& keeps.len() == msgs.len()
    &&& forall|i: int|
        0 <= i < msgs.len() ==> (#[trigger] given[i])@ == msgs[i] && callback.ensures(
            (given[i],),
            keeps[i],
        )
}

impl<S> BufferedSocket<S> {
    /// One round of reading: parse the buffered messages and hand them to
    /// `callback` until it asks to stop or a message cannot be read, then
    /// move what is left to the front of the buffers.
    ///
    /// Returns the count of messages handed out (added to `dispatched`), and
    /// how the round ended: on a malformed message; stopped by the callback
    /// (whatever is left stays buffered for the next read); or in need of
    /// more data (the caller then fills the incoming buffers and starts
    /// another round).
    pub fn read_messages_round<F1, F2>(&mut self, signature: F1, callback: F2, dispatched: usize) -> (r:
        (usize, ReadStop))
        where
            F1: FnMut(u32, u16) -> Option<&'static [ArgumentType]>,
            F2: FnMut(Message) -> bool,
        requires
            old(self).wf(),
            forall|id: u32, opcode: u16| #[trigger] signature.requires((id, opcode)),
            forall|m: Message| #[trigger] callback.requires((m,)),
            dispatched + MAX_BYTES_OUT / 4 <= usize::MAX,
        ensures
            final(self).wf(),
            final(self).socket() == old(self).socket(),
            final(self).out_data() == old(self).out_data(),
            final(self).out_fds() == old(self).out_fds(),
            final(self).in_data().read_offset() == 0,
            final(self).in_fds().read_offset() == 0,
            dispatched <= r.0 <= dispatched + MAX_BYTES_OUT / 4,
            exists|
                msgs: Seq<MessageValue>,
                sigs: Seq<&'static [ArgumentType]>,
                offs: Seq<int>,
                foffs: Seq<int>,
                given: Seq<Message>,
                keeps: Seq<bool>,
            |
                {
                    &&& reads_in_order(
                        signature,
                        old(self).in_data().contents(),
                        old(self).in_fds().contents(),
                        msgs,
                        sigs,
                        offs,
                        foffs,
                    )
                    &&& handed_to(callback, msgs, given, keeps)
                    &&& r.0 == dispatched + msgs.len()
                    &&& final(self).in_data().contents() == old(self).in_data().contents().skip(
                        offs.last(),
                    )
                    &&& final(self).in_fds().contents() == old(self).in_fds().contents().skip(
                        foffs.last(),
                    )
                    &&& (r.1 is Stopped <==> msgs.len() > 0 && !keeps.last())
                    &&& forall|i: int| 0 <= i < keeps.len() - 1 ==> #[trigger] keeps[i]
                },
            r.1 is NeedData ==> needs_data(
                signature,
                final(self).in_data().contents(),
                final(self).in_fds().contents(),
            ),
            r.1 is Malformed ==> meets_malformed(
                signature,
                final(self).in_data().contents(),
                final(self).in_fds().contents(),
            ),
    {
        let mut sig_fn = signature;
        let mut cb = callback;
        let mut count = dispatched;
        let mut stop: u8 = 0;
        let mut malformed = false;
        let ghost start = self.in_data.contents();
        let ghost fstart = self.in_fds.contents();
        let ghost mut msgs: Seq<MessageValue> = Seq::empty();
        let ghost mut sigs: Seq<&'static [ArgumentType]> = Seq::empty();
        let ghost mut offs: Seq<int> = seq![0int];
        let ghost mut foffs: Seq<int> = seq![0int];
        let ghost mut given: Seq<Message> = Seq::empty();
        let ghost mut keeps: Seq<bool> = Seq::empty();
        assert(start.skip(0) =~= start);
        assert(fstart.skip(0) =~= fstart);
        while stop == 0
            invariant
                self.wf(),
                self.socket == old(self).socket,
                self.out_data == old(self).out_data,
                self.out_fds == old(self).out_fds,
                start == old(self).in_data().contents(),
                fstart == old(self).in_fds().contents(),
                start.len() <= 2 * MAX_BYTES_OUT / 4,
                dispatched + MAX_BYTES_OUT / 4 <= usize::MAX,
                count == dispatched + msgs.len(),
                2 * msgs.len() <= offs.last(),
                reads_in_order(signature, start, fstart, msgs, sigs, offs, foffs),
                handed_to(callback, msgs, given, keeps),
                self.in_data.contents() == start.skip(offs.last()),
                self.in_fds.contents() == fstart.skip(foffs.last()),
                stop == 0 ==> forall|i: int| 0 <= i < keeps.len() ==> #[trigger] keeps[i],
                stop == 1 ==> msgs.len() > 0 && !keeps.last() && forall|i: int|
                    0 <= i < keeps.len() - 1 ==> #[trigger] keeps[i],
                stop == 2 ==> forall|i: int| 0 <= i < keeps.len() ==> #[trigger] keeps[i],
                stop != 0 && !malformed ==> stop == 1 || stop == 2,
                malformed ==> stop == 2,
                stop == 2 && !malformed ==> needs_data(
                    signature,
                    self.in_data.contents(),
                    self.in_fds.contents(),
                ),
                malformed ==> meets_malformed(
                    signature,
                    self.in_data.contents(),
                    self.in_fds.contents(),
                ),
                sig_fn == signature,
                cb == callback,
                forall|id: u32, opcode: u16| #[trigger] sig_fn.requires((id, opcode)),
                forall|m: Message| #[trigger] cb.requires((m,)),
            decreases self.in_data.contents().len() + if stop == 0 {
                1int
            } else {
                0int
            },
        {
            let ghost before = self.in_data.contents();
            let ghost fbefore = self.in_fds.contents();
            match self.peek_header() {
                None => {
                    stop = 2;
                },
                Some((object_id, opcode)) => {
                    let sig = sig_fn(object_id, opcode);
                    let ghost data_before = self.in_data;
                    let ghost fds_before = self.in_fds;
                    match self.read_with_signature(sig) {
                        Ok(msg) => {
                            let ghost s = sig.unwrap();
                            assert(sig == Some(s));
                            let ghost o = offs.last();
                            let ghost fo = foffs.last();
                            let ghost used = self.in_data.read_offset() - data_before.read_offset();
                            let ghost fused = self.in_fds.read_offset() - fds_before.read_offset();
                            proof {
                                lemma_parse_message_bounds(
                                    data_before.contents(),
                                    s@,
                                    fds_before.contents(),
                                );
                                assert(2 <= used <= before.len());
                                assert(0 <= fused <= fbefore.len());
                                assert(self.in_data.contents() =~= before.skip(used));
                                assert(before.skip(used) =~= start.skip(o + used));
                                assert(self.in_fds.contents() =~= fbefore.skip(fused));
                                assert(fbefore.skip(fused) =~= fstart.skip(fo + fused));
                                assert(signature.ensures((object_id, opcode), sig));
                                assert(header_of(before) == (object_id, opcode));
                                assert(parse_message(before, s@, fbefore) == Ok::<
                                    (MessageValue, int, int),
                                    MessageParseError,
                                >((msg@, used, fused)));
                                assert(start.skip(o) == before);
                                assert(fstart.skip(fo) == fbefore);
                                lemma_reads_one_more(
                                    signature,
                                    start,
                                    fstart,
                                    msgs,
                                    sigs,
                                    offs,
                                    foffs,
                                    msg@,
                                    s,
                                    used,
                                    fused,
                                );
                                msgs = msgs.push(msg@);
                                sigs = sigs.push(s);
                                offs = offs.push(o + used);
                                foffs = foffs.push(fo + fused);
                            }
                            let ghost this = msg;
                            let keep_going = cb(msg);
                            count = count + 1;
                            proof {
                                assert(callback.ensures((this,), keep_going));
                                let n = given.len();
                                let given2 = given.push(this);
                                let keeps2 = keeps.push(keep_going);
                                assert(handed_to(callback, msgs, given2, keeps2)) by {
                                    assert forall|i: int| 0 <= i < msgs.len() implies (#[trigger] given2[i])@
                                        == msgs[i] && callback.ensures((given2[i],), keeps2[i]) by {
                                        if i < n {
                                            assert(given2[i] == given[i]);
                                            assert(keeps2[i] == keeps[i]);
                                        }
                                    }
                                }
                                given = given2;
                                keeps = keeps2;
                            }
                            if !keep_going {
                                stop = 1;
                            }
                        },
                        Err(e) => {
                            if matches!(e, MessageParseError::Malformed) {
                                malformed = true;
                            }
                            assert(sig_fn.ensures((object_id, opcode), sig));
                            assert(signature.ensures((object_id, opcode), sig));
                            assert(header_of(self.in_data.contents()) == (object_id, opcode));
                            stop = 2;
                        },
                    }
                },
            }
        }
        let ghost left = self.in_data.contents();
        let ghost left_fds = self.in_fds.contents();
        self.in_data.move_to_front();
        self.in_fds.move_to_front();
        assert(self.in_data.contents() == left);
        assert(self.in_fds.contents() == left_fds);
        if malformed {
            // early stop here
            return (count, ReadStop::Malformed);
        }
        if stop == 1 {
            // the callback asked to stop: what is left waits for the next read
            return (count, ReadStop::Stopped);
        }
        (count, ReadStop::NeedData)
    }
}

/// What reading does after a round that needed more data, once the socket
/// was asked for some.
pub enum AfterReceive {
    /// Data came: parse another round.
    NextRound,
    /// Nothing was waiting, and messages were dispatched: report their count.
    Done(usize),
    /// Report the error of the socket.
    Fail,
}

/// The decision after asking the socket for more data: go on when data came;
/// when none was waiting, report the messages dispatched if there were any,
/// else the error; report any other error.
pub fn after_receive(dispatched: usize, received: bool, would_block: bool) -> (r: AfterReceive)
    ensures
        received ==> r is NextRound,
        !received && would_block && dispatched > 0 ==> r == AfterReceive::Done(dispatched),
        !received && !(would_block && dispatched > 0) ==> r is Fail,
{
    if received {
        AfterReceive::NextRound
    } else if would_block && dispatched > 0 {
        AfterReceive::Done(dispatched)
    } else {
        AfterReceive::Fail
    }
}

/// Sending the bytes of outgoing words and receiving them into the words of
/// an incoming buffer gives back the same words.
pub proof fn law_words_survive_transfer(words: Seq<u32>, old: Seq<u32>)
    ensures
        padded_words(words_to_bytes(words).len()) == words.len(),
        pack_bytes(words_to_bytes(words), old) == words,
{
    let bytes = words_to_bytes(words);
    assert(padded_words(bytes.len()) == words.len());
    let packed = pack_bytes(bytes, old);
    assert forall|i: int| 0 <= i < words.len() implies #[trigger] packed[i] == words[i] by {
        lemma_bytes_of_word_len(words[i]);
        assert(packed_chunk(bytes, old, i) =~= bytes_of_word(words[i])) by {
            assert forall|j: int| 0 <= j < 4 implies packed_chunk(bytes, old, i)[j]
                == bytes_of_word(words[i])[j] by {
                assert((4 * i + j) / 4 == i);
                assert((4 * i + j) % 4 == j);
            }
        }
        lemma_word_bytes_word(words[i]);
    }
    assert(packed =~= words);
}

/// Only the words a message announces in its header count in its parsing.
proof fn lemma_parse_prefix(raw: Seq<u32>, sig: Seq<ArgumentType>, fds: Seq<i32>, n: int)
    requires
        raw.len() >= 2,
        2 <= announced_words(raw) <= n <= raw.len(),
    ensures
        parse_message(raw.take(n), sig, fds) == parse_message(raw, sig, fds),
{
    let t = raw.take(n);
    assert(t[0] == raw[0]);
    assert(t[1] == raw[1]);
    assert(t.subrange(2, announced_words(raw)) =~= raw.subrange(2, announced_words(raw)));
}

/// A message that one end of a connection writes reaches the other end as
/// the same message: the words that writing it puts in the outgoing
/// buffer, sent as bytes and received into an incoming buffer, read back as
/// the message, with its descriptors as they arrived; reading uses up the
/// whole message and one descriptor for each descriptor argument.
///
/// This needs the message to fit the outgoing buffers, its strings to hold
/// no nul byte, and its size in bytes to fit the 16 bits of its header.
pub proof fn law_message_crosses_the_socket(
    m: MessageValue,
    out_storage: Seq<u32>,
    in_storage: Seq<u32>,
    received_fds: Seq<i32>,
)
    requires
        message_fits(m, out_storage.len() as int, received_fds.len() as int),
        strings_nul_free(m.args),
        (2 + args_size(m.args)) * 4 < 65536,
    ensures
        ({
            let sent = written_message(out_storage, m).take((2 + args_size(m.args)) as int);
            let received = pack_bytes(words_to_bytes(sent), in_storage);
            parse_message(received, signature_of(m.args), received_fds) == Ok::<
                (MessageValue, int, int),
                MessageParseError,
            >(
                (
                    MessageValue {
                        sender_id: m.sender_id,
                        opcode: m.opcode,
                        args: replace_fds(m.args, received_fds),
                    },
                    (2 + args_size(m.args)) as int,
                    args_fds(m.args) as int,
                ),
            )
        }),
{
    let n = 2 + args_size(m.args);
    let raw = written_message(out_storage, m);
    law_write_then_parse(m, out_storage, received_fds);
    lemma_parse_message_bounds(raw, signature_of(m.args), received_fds);
    lemma_parse_prefix(raw, signature_of(m.args), received_fds, n as int);
    let sent = raw.take(n as int);
    law_words_survive_transfer(sent, in_storage);
}

} // verus!
