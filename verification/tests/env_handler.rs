use wayland_commons::env::{EnvHandler, EnvHandlerInner};

// an environment that needs a compositor and a shm global
#[derive(Debug, PartialEq)]
struct Env {
    compositor: u32,
    shm: u32,
}

impl EnvHandlerInner for Env {
    fn create(globals: &[(u32, String, u32)]) -> Option<Self> {
        let compositor = globals.iter().find(|g| g.1 == "wl_compositor")?.0;
        let shm = globals.iter().find(|g| g.1 == "wl_shm")?.0;
        Some(Env { compositor, shm })
    }

    fn clone_env(&self) -> Self {
        Env { compositor: self.compositor, shm: self.shm }
    }
}

#[test]
fn becomes_ready_once_all_globals_are_there() {
    let mut env: EnvHandler<Env> = EnvHandler::new();
    assert!(!env.ready());
    assert!(env.clone_inner().is_none());
    assert!(!env.global_added(1, "wl_compositor".to_string(), 4));
    assert!(!env.ready());
    assert!(env.global_added(2, "wl_shm".to_string(), 1));
    assert!(env.ready());
    assert_eq!(env.clone_inner(), Some(Env { compositor: 1, shm: 2 }));
    // already ready: no new readiness
    assert!(!env.global_added(3, "wl_seat".to_string(), 7));
    assert_eq!(env.globals().len(), 3);
}

#[test]
fn removal_filters_the_list() {
    let mut env: EnvHandler<Env> = EnvHandler::new();
    env.global_added(1, "wl_compositor".to_string(), 4);
    env.global_added(5, "wl_output".to_string(), 2);
    env.global_added(1, "wl_compositor".to_string(), 4);
    env.global_added(6, "wl_output".to_string(), 3);
    env.global_removed(1);
    assert_eq!(
        env.globals(),
        &[(5, "wl_output".to_string(), 2), (6, "wl_output".to_string(), 3)][..]
    );
    env.global_removed(42);
    assert_eq!(env.globals().len(), 2);
    assert!(!env.ready());
}

#[test]
fn globals_are_those_not_removed_afterwards() {
    let mut env: EnvHandler<Env> = EnvHandler::new();
    env.global_added(1, "wl_output".to_string(), 1);
    env.global_added(2, "wl_seat".to_string(), 5);
    env.global_removed(1);
    env.global_added(1, "wl_output".to_string(), 2);
    env.global_added(3, "wl_shm".to_string(), 1);
    env.global_removed(3);
    env.global_removed(9);
    assert_eq!(
        env.globals(),
        &[(2, "wl_seat".to_string(), 5), (1, "wl_output".to_string(), 2)][..]
    );
}
