use wayland_commons::connect::{adopt_socket_fd, connect_target, parse_fd, ConnectError, ConnectTarget};

#[test]
fn descriptor_numbers() {
    assert_eq!(parse_fd("3"), Some(3));
    assert_eq!(parse_fd("+12"), Some(12));
    assert_eq!(parse_fd("-1"), Some(-1));
    assert_eq!(parse_fd("2147483647"), Some(i32::MAX));
    assert_eq!(parse_fd("-2147483648"), Some(i32::MIN));
    assert_eq!(parse_fd("2147483648"), None);
    assert_eq!(parse_fd("-2147483649"), None);
    assert_eq!(parse_fd(""), None);
    assert_eq!(parse_fd("-"), None);
    assert_eq!(parse_fd("fd"), None);
    for text in ["0", "-0", "+-1", "--1", "12 ", "007", "99999999999999999999", "-99999999999999999999"] {
        assert_eq!(parse_fd(text), text.parse::<i32>().ok(), "{}", text);
    }
}

#[test]
fn socket_variable_comes_first() {
    assert_eq!(
        connect_target(Some("5".to_string()), Some(b"/run/user/1000".to_vec()), None),
        Ok(ConnectTarget::Fd(5))
    );
    assert_eq!(connect_target(Some("five".to_string()), None, None), Err(ConnectError::InvalidFd));
}

#[test]
fn socket_path_from_runtime_dir() {
    assert_eq!(
        connect_target(None, Some(b"/run/user/1000".to_vec()), None),
        Ok(ConnectTarget::Path { dir: b"/run/user/1000".to_vec(), name: b"wayland-0".to_vec() })
    );
    assert_eq!(
        connect_target(None, Some(b"/tmp".to_vec()), Some(b"wayland-1".to_vec())),
        Ok(ConnectTarget::Path { dir: b"/tmp".to_vec(), name: b"wayland-1".to_vec() })
    );
    assert_eq!(connect_target(None, None, Some(b"wayland-1".to_vec())), Err(ConnectError::NoCompositor));
}

#[test]
fn connect_error_messages() {
    assert_eq!(ConnectError::NoWaylandLib.message(), "The wayland library could not be loaded");
    assert_eq!(ConnectError::NoCompositor.message(), "Could not find wayland compositor");
    assert_eq!(ConnectError::InvalidFd.message(), "WAYLAND_SOCKET was set but contained garbage");
}

#[test]
fn adopting_a_descriptor() {
    let fd = nix::unistd::dup(2).unwrap();
    assert_eq!(adopt_socket_fd(fd), Ok(fd));
    let flags = nix::fcntl::fcntl(fd, nix::fcntl::FcntlArg::F_GETFD).unwrap();
    assert!(flags & nix::libc::FD_CLOEXEC != 0);
    nix::unistd::close(fd).unwrap();
    assert_eq!(adopt_socket_fd(-1), Err(ConnectError::InvalidFd));
}
