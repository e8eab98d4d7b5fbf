use auto_water::ota::{check_auth, check_auth_with, OtaError, OtaTransfer, OTA_PASSWORD, WRITE_CHUNK_SIZE};

#[test]
fn auth_accepts_correct_password() {
    assert!(check_auth(Some(b"Bearer auto-water-ota")));
}

#[test]
fn auth_rejects_wrong_password() {
    assert!(!check_auth(Some(b"Bearer wrong-password")));
}

#[test]
fn auth_rejects_none() {
    assert!(!check_auth(None));
}

#[test]
fn auth_rejects_empty_header() {
    assert!(!check_auth(Some(b"")));
}

#[test]
fn auth_rejects_bearer_without_token() {
    assert!(!check_auth(Some(b"Bearer ")));
}

#[test]
fn auth_rejects_non_bearer_scheme() {
    assert!(!check_auth(Some(b"Basic dXNlcjpwYXNz")));
}

#[test]
fn default_password_is_not_empty() {
    assert!(!OTA_PASSWORD.is_empty());
}

#[test]
fn auth_rejects_bare_password_and_wrong_case() {
    assert!(!check_auth(Some(b"auto-water-ota")));
    assert!(!check_auth(Some(b"bearer auto-water-ota")));
    assert!(!check_auth(Some(b"Bearer auto-water-ota ")));
}

fn plans(content_length: usize, initial_len: usize) -> Vec<(u32, usize, usize, usize)> {
    let mut t = OtaTransfer::new(content_length, initial_len);
    let mut out = Vec::new();
    while let Some(p) = t.next_chunk() {
        out.push((p.offset, p.size, p.initial_start, p.from_initial));
        t.chunk_written(&p);
    }
    out
}

#[test]
fn transfer_chunks_cover_image() {
    assert_eq!(WRITE_CHUNK_SIZE, 4096);
    let p = plans(10000, 300);
    assert_eq!(p, vec![(0, 4096, 0, 300), (4096, 4096, 300, 0), (8192, 1808, 300, 0)]);
    let q = plans(4096, 5000);
    assert_eq!(q, vec![(0, 4096, 0, 4096)]);
    let r = plans(5000, 5000);
    assert_eq!(r, vec![(0, 4096, 0, 4096), (4096, 904, 4096, 904)]);
    assert!(plans(0, 0).is_empty());
}

#[test]
fn absorb_read_outcomes() {
    assert!(matches!(OtaTransfer::absorb_read(0, 10, 0), Err(OtaError::SocketRead)));
    assert!(matches!(OtaTransfer::absorb_read(3, 10, 7), Ok(10)));
    assert_eq!(OtaError::FlashWrite.name(), "FlashWrite");
    assert_eq!(OtaError::UpdaterInit.name(), "UpdaterInit");
}

#[test]
fn auth_with_other_password() {
    assert!(check_auth_with(Some(b"Bearer s3cret"), "s3cret"));
    assert!(!check_auth_with(Some(b"Bearer auto-water-ota"), "s3cret"));
    assert!(check_auth_with(Some(b"Bearer "), ""));
    assert!(!check_auth_with(Some(b"Beare"), ""));
    assert!(!check_auth_with(None, "s3cret"));
}
