use users_groups::codec::decode_group_file;
use users_groups::codec::decode_group_line;
use users_groups::codec::decode_passwd_file;
use users_groups::codec::decode_passwd_line;
use users_groups::codec::decode_shadow_file;
use users_groups::codec::decode_shadow_line;
use users_groups::codec::encode_group_file;
use users_groups::codec::encode_group_line;
use users_groups::codec::encode_passwd_file;
use users_groups::codec::encode_passwd_line;
use users_groups::codec::encode_shadow_file;
use users_groups::codec::encode_shadow_line;
use users_groups::records::GroupEntry;
use users_groups::records::PasswdEntry;
use users_groups::records::ShadowEntry;
use users_groups::EngineError;

fn passwd(name: &str, uid: u32, gid: u32, gecos: &str, dir: &str, shell: &str) -> PasswdEntry {
    PasswdEntry {
        name: name.to_string(),
        passwd: "x".to_string(),
        uid,
        gid,
        gecos: gecos.to_string(),
        dir: dir.to_string(),
        shell: shell.to_string(),
    }
}

fn group(name: &str, gid: u32, members: &[&str]) -> GroupEntry {
    GroupEntry {
        name: name.to_string(),
        passwd: "x".to_string(),
        gid,
        members: members.iter().map(|m| m.to_string()).collect(),
    }
}

#[test]
fn passwd_line_exact() {
    let e = passwd("root", 0, 0, "root", "/root", "/bin/sh");
    assert_eq!(encode_passwd_line(&e), "root:x:0:0:root:/root:/bin/sh");
}

#[test]
fn group_line_exact() {
    let e = group("wheel", 10, &["alice", "bob"]);
    assert_eq!(encode_group_line(&e), "wheel:x:10:alice,bob");
}

#[test]
fn group_line_zero_members_renders_empty_field() {
    let e = group("nogroup", 65534, &[]);
    assert_eq!(encode_group_line(&e), "nogroup:x:65534:");
    let back = decode_group_line("nogroup:x:65534:").expect("decodes");
    assert_eq!(back, e);
}

#[test]
fn shadow_line_all_unset_renders_empty_fields() {
    let e = ShadowEntry {
        name: "alice".to_string(),
        passwd: "!".to_string(),
        last_change: None,
        min: None,
        max: None,
        warning: None,
        inactivity: None,
        expires: None,
        flag: None,
    };
    assert_eq!(encode_shadow_line(&e), "alice:!:::::::");
    let back = decode_shadow_line("alice:!:::::::").expect("decodes");
    assert_eq!(back, e);
}

#[test]
fn shadow_line_with_aging_fields() {
    let e = ShadowEntry {
        name: "bob".to_string(),
        passwd: "$6$abc".to_string(),
        last_change: Some(19000),
        min: Some(0),
        max: Some(99999),
        warning: Some(7),
        inactivity: None,
        expires: None,
        flag: None,
    };
    let line = encode_shadow_line(&e);
    assert_eq!(line, "bob:$6$abc:19000:0:99999:7:::");
    assert_eq!(decode_shadow_line(&line), Some(e));
}

#[test]
fn passwd_file_round_trip() {
    let entries = vec![
        passwd("root", 0, 0, "root", "/root", "/bin/sh"),
        passwd("alice", 1000, 100, "Alice", "/home/alice", "/bin/bash"),
        passwd("bob", 1001, 100, "", "/home/bob", "/bin/zsh"),
    ];
    let text = encode_passwd_file(&entries);
    assert_eq!(decode_passwd_file(&text), Ok(entries));
}

#[test]
fn group_file_round_trip() {
    let entries = vec![
        group("root", 0, &[]),
        group("wheel", 10, &["alice"]),
        group("users", 100, &["alice", "bob"]),
    ];
    let text = encode_group_file(&entries);
    assert_eq!(text, "root:x:0:\nwheel:x:10:alice\nusers:x:100:alice,bob");
    assert_eq!(decode_group_file(&text), Ok(entries));
}

#[test]
fn shadow_file_round_trip() {
    let entries = vec![
        ShadowEntry {
            name: "root".to_string(),
            passwd: "*".to_string(),
            last_change: Some(1),
            min: None,
            max: None,
            warning: None,
            inactivity: None,
            expires: None,
            flag: None,
        },
        ShadowEntry {
            name: "alice".to_string(),
            passwd: "!".to_string(),
            last_change: None,
            min: None,
            max: None,
            warning: None,
            inactivity: None,
            expires: None,
            flag: None,
        },
    ];
    let text = encode_shadow_file(&entries);
    assert_eq!(decode_shadow_file(&text), Ok(entries));
}

#[test]
fn empty_file_decodes_to_no_records() {
    assert_eq!(decode_group_file(""), Ok(vec![]));
    assert_eq!(decode_passwd_file(""), Ok(vec![]));
    assert_eq!(encode_group_file(&vec![]), "");
}

#[test]
fn malformed_line_reports_its_index() {
    let text = "root:x:0:\nbroken line\nusers:x:100:";
    assert_eq!(
        decode_group_file(text),
        Err(EngineError::MalformedRecord { line: 1 })
    );
}

#[test]
fn malformed_lines_rejected() {
    assert_eq!(decode_group_line(""), None);
    assert_eq!(decode_group_line("a:b:c"), None);
    assert_eq!(decode_group_line("a:b:notanumber:"), None);
    assert_eq!(decode_group_line(":x:10:"), None);
    assert_eq!(decode_passwd_line("root:x:0:0:root:/root"), None);
    assert_eq!(decode_passwd_line("root:x:0:4294967296:root:/root:/bin/sh"), None);
    assert_eq!(decode_shadow_line("a:b:1:2:3:4:5:6"), None);
}

#[test]
fn uid_bounds_decode() {
    let line = "big:x:4294967295:0:::";
    let e = decode_passwd_line(line).expect("max uid decodes");
    assert_eq!(e.uid, 4294967295);
    assert_eq!(encode_passwd_line(&e), line);
}
