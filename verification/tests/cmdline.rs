use composefs::cmdline::{parse_composefs_cmdline, CmdlineError};

fn sample_hex() -> (String, Vec<u8>) {
    let mut hex = String::new();
    let mut bytes = Vec::new();
    for i in 0..32u8 {
        hex.push_str(&format!("{:02x}", i));
        bytes.push(i);
    }
    (hex, bytes)
}

#[test]
fn finds_and_decodes_the_token() {
    let (hex, bytes) = sample_hex();
    let cmdline = format!("ro composefs={} quiet", hex);
    assert_eq!(parse_composefs_cmdline(cmdline.as_bytes()), Ok(bytes));
}

#[test]
fn uppercase_digits_decode_too() {
    let (hex, bytes) = sample_hex();
    let cmdline = format!("composefs={}", hex.to_uppercase());
    assert_eq!(parse_composefs_cmdline(cmdline.as_bytes()), Ok(bytes));
}

#[test]
fn missing_token() {
    assert_eq!(parse_composefs_cmdline(b"ro quiet"), Err(CmdlineError::Missing));
    assert_eq!(parse_composefs_cmdline(b""), Err(CmdlineError::Missing));
    // the prefix must match exactly
    assert_eq!(parse_composefs_cmdline(b"xcomposefs=00"), Err(CmdlineError::Missing));
}

#[test]
fn wrong_length_digest() {
    assert_eq!(parse_composefs_cmdline(b"composefs=00ff"), Err(CmdlineError::BadDigest));
    assert_eq!(parse_composefs_cmdline(b"composefs="), Err(CmdlineError::BadDigest));
}

#[test]
fn non_hex_digest() {
    let bad = format!("composefs={}", "zz".repeat(32));
    assert_eq!(parse_composefs_cmdline(bad.as_bytes()), Err(CmdlineError::BadDigest));
}

#[test]
fn first_matching_token_wins() {
    let (hex, bytes) = sample_hex();
    let cmdline = format!("composefs={} composefs=beef", hex);
    assert_eq!(parse_composefs_cmdline(cmdline.as_bytes()), Ok(bytes));
}
