//! Where a client connects: the socket the environment names.

use vstd::prelude::*;

use crate::decimal::{all_digits, digits_value, lemma_digits_value_grows};
use crate::fd::{close_fd, set_cloexec};

verus! {

/// Errors that can occur when connecting to a wayland server
#[derive(Debug, Clone, Copy, PartialEq, Eq, Structural)]
pub enum ConnectError {
    /// The wayland library could not be loaded.
    NoWaylandLib,
    /// Could not find wayland compositor
    NoCompositor,
    /// `WAYLAND_SOCKET` was set but contained garbage
    InvalidFd,
}

impl ConnectError {
    /// What the error says.
    pub fn message(&self) -> (r: String)
        ensures
            r@ == match self {
                ConnectError::NoWaylandLib => "The wayland library could not be loaded"@,
                ConnectError::NoCompositor => "Could not find wayland compositor"@,
                ConnectError::InvalidFd => "WAYLAND_SOCKET was set but contained garbage"@,
            },
    {
        match self {
            ConnectError::NoWaylandLib => "The wayland library could not be loaded".to_owned(),
            ConnectError::NoCompositor => "Could not find wayland compositor".to_owned(),
            ConnectError::InvalidFd => "WAYLAND_SOCKET was set but contained garbage".to_owned(),
        }
    }
}

/// The `i32` that the bytes write in decimal, with an optional sign, as
/// `i32::from_str` reads it: at least one digit, nothing but digits after
/// the sign, and a value in range.
pub open spec fn decimal_i32(b: Seq<u8>) -> Option<i32> {
    let negative = b.len() > 0 && b[0] == 45;
    let d = if b.len() > 0 && (b[0] == 43 || b[0] == 45) {
        b.drop_first()
    } else {
        b
    };
    let v = if negative {
        -digits_value(d)
    } else {
        digits_value(d)
    };
    if d.len() > 0 && all_digits(d) && i32::MIN <= v <= i32::MAX {
        Some(v as i32)
    } else {
        None
    }
}

/// Reads a descriptor number as `i32::from_str` does: decimal digits with an
/// optional sign; nothing if the text is no such number or is out of range.
pub fn parse_fd(text: &str) -> (r: Option<i32>)
    ensures
        r == decimal_i32(vstd::utf8::encode_utf8(text@)),
{
    let b = text.as_bytes();
    let negative = b.len() > 0 && b[0] == 45;
    let start: usize = if b.len() > 0 && (b[0] == 43 || b[0] == 45) {
        1
    } else {
        0
    };
    let ghost d = if b@.len() > 0 && (b@[0] == 43 || b@[0] == 45) {
        b@.drop_first()
    } else {
        b@
    };
    assert(d =~= b@.skip(start as int));
    if start >= b.len() {
        return None;
    }
    // magnitude of the value, kept at most 2^31
    let mut acc: u64 = 0;
    let mut i: usize = start;
    while i < b.len()
        invariant
            start <= i <= b@.len(),
            b@ == vstd::utf8::encode_utf8(text@),
            negative == (b@.len() > 0 && b@[0] == 45),
            d == (if b@.len() > 0 && (b@[0] == 43 || b@[0] == 45) {
                b@.drop_first()
            } else {
                b@
            }),
            d == b@.skip(start as int),
            forall|j: int| 0 <= j < i - start ==> 48 <= #[trigger] d[j] <= 57,
            acc == digits_value(d.take(i - start)),
            acc <= 0x8000_0000,
        decreases b@.len() - i,
    {
        let c = b[i];
        if c < 48 || c > 57 {
            assert(d[i - start] == c);
            return None;
        }
        let ghost k = (i - start) as int;
        assert(d.take(k + 1).drop_last() =~= d.take(k));
        assert(d.take(k + 1).last() == c);
        acc = acc * 10 + (c - 48) as u64;
        i += 1;
        if acc > 0x8000_0000 {
            proof {
                assert(all_digits(d.take(k + 1))) by {
                    assert forall|j: int| 0 <= j < k + 1 implies 48 <= #[trigger] d.take(k + 1)[j]
                        <= 57 by {
                        assert(d.take(k + 1)[j] == d[j]);
                    }
                }
                if all_digits(d) {
                    lemma_digits_value_grows(d, k + 1);
                }
            }
            return None;
        }
    }
    assert(d.take(d.len() as int) =~= d);
    assert(all_digits(d));
    if negative {
        if acc == 0x8000_0000 {
            Some(i32::MIN)
        } else {
            Some(-(acc as i32))
        }
    } else if acc > 0x7fff_ffff {
        None
    } else {
        Some(acc as i32)
    }
}

/// Where to connect.
#[derive(Debug, Clone, PartialEq, Eq)]
pub enum ConnectTarget {
    /// An already connected socket, by its descriptor
    Fd(i32),
    /// The socket named `name` in the directory `dir`
    Path {
        /// The runtime directory
        dir: Vec<u8>,
        /// The name of the socket (or an absolute path)
        name: Vec<u8>,
    },
}

/// The name of the socket when the environment names none.
pub open spec fn default_display() -> Seq<u8> {
    seq![119u8, 97, 121, 108, 97, 110, 100, 45, 48]
}

/// Where the environment says to connect: the descriptor that
/// `WAYLAND_SOCKET` holds if it is set (an error if it is no number); else
/// the socket `WAYLAND_DISPLAY` (`wayland-0` if unset) of the directory
/// `XDG_RUNTIME_DIR`, which must be set.
pub fn connect_target(
    wayland_socket: Option<String>,
    runtime_dir: Option<Vec<u8>>,
    display: Option<Vec<u8>>,
) -> (r: Result<ConnectTarget, ConnectError>)
    ensures
        wayland_socket matches Some(txt) ==> match decimal_i32(vstd::utf8::encode_utf8(txt@)) {
            Some(fd) => r matches Ok(ConnectTarget::Fd(f)) && f == fd,
            None => r == Err::<ConnectTarget, ConnectError>(ConnectError::InvalidFd),
        },
        wayland_socket is None && runtime_dir is None ==> r == Err::<ConnectTarget, ConnectError>(
            ConnectError::NoCompositor,
        ),
        wayland_socket is None ==> (runtime_dir matches Some(dir) ==> (r matches Ok(
            ConnectTarget::Path { dir: d, name },
        ) && d@ == dir@ && name@ == match display {
            Some(n) => n@,
            None => default_display(),
        })),
{
    match wayland_socket {
        Some(txt) => match parse_fd(txt.as_str()) {
            Some(fd) => Ok(ConnectTarget::Fd(fd)),
            None => Err(ConnectError::InvalidFd),
        },
        None => match runtime_dir {
            None => Err(ConnectError::NoCompositor),
            Some(dir) => {
                let name = match display {
                    Some(n) => n,
                    None => {
                        let v: Vec<u8> = vec![119u8, 97, 121, 108, 97, 110, 100, 45, 48];
                        assert(v@ =~= default_display());
                        v
                    },
                };
                Ok(ConnectTarget::Path { dir, name })
            },
        },
    }
}

/// Take the socket of descriptor `fd` that `WAYLAND_SOCKET` named: its
/// CLOEXEC flag is set; if that fails, the descriptor is closed and the
/// connection refused.
pub fn adopt_socket_fd(fd: i32) -> (r: Result<i32, ConnectError>)
    ensures
        r is Ok ==> r == Ok::<i32, ConnectError>(fd),
        r is Err ==> r == Err::<i32, ConnectError>(ConnectError::InvalidFd),
{
    match set_cloexec(fd) {
        // setting the O_CLOEXEC worked
        Ok(_) => Ok(fd),
        Err(_) => {
            // something went wrong in F_GETFD or F_SETFD
            close_fd(fd);
            Err(ConnectError::InvalidFd)
        },
    }
}

} // verus!
