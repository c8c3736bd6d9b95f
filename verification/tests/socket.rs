use std::path::PathBuf;

use jftermd::socket::{ensure_socket_dir, socket_path_in, DirStep};

fn bytes(p: PathBuf) -> Vec<u8> {
    p.as_os_str().as_encoded_bytes().to_vec()
}

#[test]
fn socket_path_uses_xdg_runtime_dir_when_set() {
    let dir = tempfile::tempdir().unwrap();
    let p = socket_path_in(Some(dir.path().as_os_str().as_encoded_bytes()), 1000);
    assert_eq!(p, bytes(dir.path().join("jfterm").join("muxer.sock")));
}

#[test]
fn socket_path_falls_back_to_tmp_with_uid_when_unset() {
    let p = socket_path_in(None, 4242);
    assert_eq!(p, bytes(PathBuf::from("/tmp/jfterm-4242").join("muxer.sock")));
}

#[test]
fn socket_path_edge_cases() {
    assert_eq!(socket_path_in(Some(b""), 0), b"/tmp/jfterm-0/muxer.sock".to_vec());
    assert_ne!(socket_path_in(None, 1), socket_path_in(None, 11));
    for dir in ["/", "/run/", "run", "a//", "/run/user/1000"] {
        assert_eq!(
            socket_path_in(Some(dir.as_bytes()), 7),
            bytes(PathBuf::from(dir).join("jfterm").join("muxer.sock"))
        );
    }
}

#[test]
fn socket_dir_steps() {
    assert_eq!(ensure_socket_dir(None), DirStep::NoParent);
    assert_eq!(ensure_socket_dir(Some(true)), DirStep::Keep);
    assert_eq!(ensure_socket_dir(Some(false)), DirStep::Create);
}
