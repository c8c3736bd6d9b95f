//! Socket-path resolution:
//! `$XDG_RUNTIME_DIR/jfterm/muxer.sock`, falling back to `/tmp/jfterm-<uid>`.

use vstd::prelude::*;

use crate::bytes::{decimal, extend_bytes, push_decimal};

verus! {

/// `/jfterm`.
const DIR: [u8; 7] = [0x2f, 0x6a, 0x66, 0x74, 0x65, 0x72, 0x6d];

/// `/tmp/jfterm-`.
const FALLBACK: [u8; 12] = [
    0x2f, 0x74, 0x6d, 0x70, 0x2f, 0x6a, 0x66, 0x74, 0x65, 0x72, 0x6d, 0x2d,
];

/// `/muxer.sock`.
const FILE: [u8; 11] = [0x2f, 0x6d, 0x75, 0x78, 0x65, 0x72, 0x2e, 0x73, 0x6f, 0x63, 0x6b];

/// `dir` without a slash at its end.
pub open spec fn without_slash(dir: Seq<u8>) -> Seq<u8> {
    if dir.len() > 0 && dir.last() == 0x2f {
        dir.drop_last()
    } else {
        dir
    }
}

/// The directory of the socket.
pub open spec fn socket_dir(xdg: Option<Seq<u8>>, uid: u32) -> Seq<u8> {
    match xdg {
        Some(dir) if dir.len() > 0 => without_slash(dir) + seq![
            0x2fu8,
            0x6au8,
            0x66u8,
            0x74u8,
            0x65u8,
            0x72u8,
            0x6du8,
        ],
        _ => seq![
            0x2fu8,
            0x74u8,
            0x6du8,
            0x70u8,
            0x2fu8,
            0x6au8,
            0x66u8,
            0x74u8,
            0x65u8,
            0x72u8,
            0x6du8,
            0x2du8,
        ] + decimal(uid as nat),
    }
}

/// The path of the socket.
pub open spec fn socket_path(xdg: Option<Seq<u8>>, uid: u32) -> Seq<u8> {
    socket_dir(xdg, uid) + seq![
        0x2fu8,
        0x6du8,
        0x75u8,
        0x78u8,
        0x65u8,
        0x72u8,
        0x2eu8,
        0x73u8,
        0x6fu8,
        0x63u8,
        0x6bu8,
    ]
}

/// Resolve the socket path: `$XDG_RUNTIME_DIR/jfterm/muxer.sock`, else
/// `/tmp/jfterm-<uid>/muxer.sock`. Paths are byte strings. An empty `xdg`
/// counts as none, and a slash at its end is not doubled.
pub fn socket_path_in(xdg: Option<&[u8]>, uid: u32) -> (path: Vec<u8>)
    ensures
        path@ == socket_path(
            match xdg {
                Some(dir) => Some(dir@),
                None => None,
            },
            uid,
        ),
{
    let mut path: Vec<u8> = Vec::new();
    let mut named = false;
    if let Some(dir) = xdg {
        if dir.len() > 0 {
            named = true;
            extend_bytes(&mut path, dir);
            if dir[dir.len() - 1] == 0x2f {
                path.pop();
            }
            assert(path@ =~= without_slash(dir@));
            extend_bytes(&mut path, &DIR);
        }
    }
    if !named {
        extend_bytes(&mut path, &FALLBACK);
        push_decimal(&mut path, uid);
    }
    let ghost dir = path@;
    extend_bytes(&mut path, &FILE);
    let ghost x: Option<Seq<u8>> = match xdg {
        Some(dir) => Some(dir@),
        None => None,
    };
    assert(dir =~= socket_dir(x, uid));
    assert(path@ =~= socket_path(x, uid));
    path
}

/// What to do about the directory of the socket.
#[derive(Debug, Clone, Copy, PartialEq, Eq, Structural)]
pub enum DirStep {
    /// It has no directory: refuse.
    NoParent,
    /// It is there.
    Keep,
    /// Create it, with all above it, for the user alone (mode 0700).
    Create,
}

/// Decides what to do about the directory of the socket, given whether it
/// exists, if the path has one.
pub fn ensure_socket_dir(present: Option<bool>) -> (step: DirStep)
    ensures
        step == match present {
            None => DirStep::NoParent,
            Some(true) => DirStep::Keep,
            Some(false) => DirStep::Create,
        },
{
    match present {
        None => DirStep::NoParent,
        Some(true) => DirStep::Keep,
        Some(false) => DirStep::Create,
    }
}

/// Different users fall back to different sockets.
pub proof fn law_fallback_is_per_user(a: u32, b: u32)
    requires
        socket_path(None, a) == socket_path(None, b),
    ensures
        a == b,
{
    let m = decimal(a as nat);
    let n = decimal(b as nat);
    let p = socket_path(None, a);
    assert(p.len() == 12 + m.len() + 11);
    assert(socket_path(None, b).len() == 12 + n.len() + 11);
    assert(p.subrange(12, 12 + m.len() as int) =~= m);
    assert(p.subrange(12, 12 + m.len() as int) =~= n);
    crate::bytes::law_decimal_is_injective(a as nat, b as nat);
}

/// The bytes are those of the text, which is ASCII.
pub open spec fn spells(bytes: Seq<u8>, text: Seq<char>) -> bool {
    bytes.len() == text.len() && forall|i: int|
        0 <= i < text.len() ==> #[trigger] bytes[i] as char == text[i]
}

/// Under a runtime directory the socket is `jfterm/muxer.sock`, with one slash
/// between the two.
pub proof fn law_socket_lies_in_the_runtime_directory(dir: Seq<u8>, uid: u32)
    requires
        dir.len() > 0,
    ensures
        ({
            let path = socket_path(Some(dir), uid);
            if dir.last() == 0x2f {
                dir.is_prefix_of(path) && spells(
                    path.skip(dir.len() as int),
                    "jfterm/muxer.sock"@,
                )
            } else {
                dir.is_prefix_of(path) && spells(
                    path.skip(dir.len() as int),
                    "/jfterm/muxer.sock"@,
                )
            }
        }),
{
    reveal_strlit("jfterm/muxer.sock");
    reveal_strlit("/jfterm/muxer.sock");
    let path = socket_path(Some(dir), uid);
    assert(path.take(dir.len() as int) =~= dir);
    let rest = path.skip(dir.len() as int);
    if dir.last() == 0x2f {
        let text = "jfterm/muxer.sock"@;
        assert(rest.len() == 17 && text.len() == 17);
        assert forall|i: int| 0 <= i < 17 implies #[trigger] rest[i] as char == text[i] by {
            assert(rest[i] == path[dir.len() + i]);
        }
    } else {
        let text = "/jfterm/muxer.sock"@;
        assert(rest.len() == 18 && text.len() == 18);
        assert forall|i: int| 0 <= i < 18 implies #[trigger] rest[i] as char == text[i] by {
            assert(rest[i] == path[dir.len() + i]);
        }
    }
}

/// Without a runtime directory, or with an empty one, the socket is
/// `/tmp/jfterm-<uid>/muxer.sock`.
pub proof fn law_fallback_lies_in_tmp(xdg: Option<Seq<u8>>, uid: u32)
    requires
        xdg matches Some(dir) ==> dir.len() == 0,
    ensures
        ({
            let path = socket_path(xdg, uid);
            let n = path.len() - 11;
            &&& n > 12
            &&& spells(path.take(12), "/tmp/jfterm-"@)
            &&& path.subrange(12, n) == decimal(uid as nat)
            &&& spells(path.skip(n), "/muxer.sock"@)
        }),
{
    reveal_strlit("/tmp/jfterm-");
    reveal_strlit("/muxer.sock");
    crate::bytes::lemma_decimal_stands_for_itself(uid as nat);
    let path = socket_path(xdg, uid);
    let n = path.len() - 11;
    let head = path.take(12);
    let tail = path.skip(n);
    assert(path.subrange(12, n) =~= decimal(uid as nat));
    assert forall|i: int| 0 <= i < 12 implies #[trigger] head[i] as char == "/tmp/jfterm-"@[i] by {
        assert(head[i] == path[i]);
    }
    assert forall|i: int| 0 <= i < 11 implies #[trigger] tail[i] as char == "/muxer.sock"@[i] by {
        assert(tail[i] == path[n + i]);
    }
}

} // verus!
