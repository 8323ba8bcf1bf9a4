use unitylan::keys::{
    anchor_path, clear_enrollment, create_private_dir, load_all_pinned, load_anchor,
    load_or_create_relay_secret, load_or_generate_keypair, load_token, next_tmp, own_key_path,
    pin_anchor, purge_state, save_token, tmp_name, AnchorFile, Opened, Pin, PinError, Removal,
    TmpStep, TMP_TRIES,
};

#[test]
fn private_dir_tightens_but_keeps_the_control_traversal_bit() {
    // A fresh dir is owner-only.
    assert_eq!(create_private_dir(None), 0o700);

    // A dir left group/world-readable is tightened back down — every read and list bit goes,
    // including the group's; only its traversal bit is spared (see below).
    assert_eq!(create_private_dir(Some(0o755)), 0o710);
    assert_eq!(create_private_dir(Some(0o744)), 0o700);

    // But the traversal bit survives, or writing any state file would revoke the frontend's path
    // to the socket.
    assert_eq!(create_private_dir(Some(0o710)), 0o710);
}

#[test]
fn private_write_is_owner_only_and_replaces_symlink() {
    let s = save_token("/var/lib/unitylan", "private");
    assert_eq!(s.path, "/var/lib/unitylan/token");
    assert_eq!(s.text, "private");
    assert_eq!(s.mode & 0o777, 0o600);
    // The new file stands beside the old one, under a name of its own.
    assert_eq!(tmp_name("token", "abc"), ".token.abc.tmp");
}

#[test]
fn a_temporary_file_is_never_one_that_was_there() {
    assert_eq!(next_tmp(0, Opened::New), TmpStep::Use);
    assert_eq!(next_tmp(0, Opened::Taken), TmpStep::Again);
    assert_eq!(next_tmp(TMP_TRIES - 1, Opened::Taken), TmpStep::GiveUp);
    assert_eq!(next_tmp(0, Opened::Failed), TmpStep::GiveUp);
}

#[test]
fn a_key_is_made_once() {
    let fresh = load_or_generate_keypair(None, [7u8; 32]).unwrap();
    assert_eq!(fresh.key, [7u8; 32]);
    assert!(fresh.write);
    let kept = load_or_generate_keypair(Some(&vec![9u8; 32]), [7u8; 32]).unwrap();
    assert_eq!(kept.key, [9u8; 32]);
    assert!(!kept.write);
    match load_or_generate_keypair(Some(&vec![9u8; 31]), [7u8; 32]) {
        Err(t) => assert_eq!(t, "wg.key is not 32 bytes"),
        Ok(_) => panic!("a broken key is not replaced"),
    }
    assert_eq!(own_key_path("/s"), "/s/wg.key");
}

#[test]
fn an_anchor_moves_only_by_rotation() {
    let a = [1u8; 32];
    let b = [2u8; 32];
    assert_eq!(pin_anchor(5, None, &a, false), Ok(Pin::Write));
    assert_eq!(pin_anchor(5, Some(&a.to_vec()), &a, false), Ok(Pin::Keep));
    assert_eq!(
        pin_anchor(5, Some(&a.to_vec()), &b, false),
        Err(PinError::NoPath { guild_id: 5 })
    );
    assert_eq!(pin_anchor(5, Some(&a.to_vec()), &b, true), Ok(Pin::Write));
    assert_eq!(
        pin_anchor(5, Some(&vec![1u8; 3]), &b, true),
        Err(PinError::NotAnAnchor { guild_id: 5 })
    );
    assert_eq!(
        PinError::NoPath { guild_id: 5 }.to_text(),
        "guild 5 trust anchor changed with no valid rotation path — refusing (possible MITM)"
    );
}

#[test]
fn a_pinned_anchor_is_read_back() {
    assert_eq!(load_anchor(5, Some(&vec![3u8; 32])), Ok([3u8; 32]));
    assert_eq!(load_anchor(5, None), Err(PinError::Unpinned { guild_id: 5 }));
    assert_eq!(
        load_anchor(5, Some(&vec![])),
        Err(PinError::NotAnAnchor { guild_id: 5 })
    );
    assert_eq!(anchor_path("/s", 42), "/s/anchors/42.pub");
    assert_eq!(
        PinError::Unpinned { guild_id: 8 }.to_text(),
        "reading pinned anchor for guild 8"
    );
    assert_eq!(
        PinError::NotAnAnchor { guild_id: 8 }.to_text(),
        "pinned anchor file for guild 8 is not 32 bytes"
    );
}

#[test]
fn every_pinned_anchor_is_found_by_its_files_name() {
    let f = |name: &str, bytes: Option<Vec<u8>>| AnchorFile { name: name.to_string(), bytes };
    let found = load_all_pinned(&vec![
        f("42.pub", Some(vec![1u8; 32])),
        f("notes.pub", Some(vec![1u8; 32])),
        f("43.pub", Some(vec![1u8; 5])),
        f("44.pub", None),
        f("45", Some(vec![2u8; 32])),
        f(".46", Some(vec![2u8; 32])),
        f("18446744073709551615.pub", Some(vec![3u8; 32])),
        f("18446744073709551616.pub", Some(vec![3u8; 32])),
    ]);
    assert_eq!(
        found,
        vec![(42, [1u8; 32]), (45, [2u8; 32]), (u64::MAX, [3u8; 32])]
    );
}

#[test]
fn a_token_is_read_without_the_space_around_it() {
    assert_eq!(load_token(Some(" abc\n")), Some("abc".to_string()));
    assert_eq!(load_token(None), None);
}

#[test]
fn a_relay_secret_stays_the_same() {
    assert_eq!(
        load_or_create_relay_secret(Some("old\n"), "new".to_string()),
        ("old".to_string(), false)
    );
    assert_eq!(
        load_or_create_relay_secret(Some(" \n"), "new".to_string()),
        ("new".to_string(), true)
    );
    assert_eq!(
        load_or_create_relay_secret(None, "new".to_string()),
        ("new".to_string(), true)
    );
}

#[test]
fn logging_out_keeps_the_anchors() {
    assert_eq!(
        clear_enrollment("/s"),
        vec!["/s/token".to_string(), "/s/wg.key".to_string()]
    );
    assert!(purge_state(Removal::Removed));
    assert!(purge_state(Removal::Missing));
    assert!(!purge_state(Removal::Failed));
}
