use mysql_crypt::SqlCrypt;

#[test]
fn roundtrip_empty_key_and_data() {
    assert_eq!(mysql_crypt::encode(b"", b""), Vec::<u8>::new());
    assert_eq!(mysql_crypt::decode(b"", b""), Vec::<u8>::new());
    let data = b"some plaintext".to_vec();
    let enc = mysql_crypt::encode(&data, b"");
    assert_eq!(mysql_crypt::decode(&enc, b""), data);
}

#[test]
fn roundtrip_various_keys() {
    let keys: [&[u8]; 4] = [b"monty", b"k", b"a longer key with several words", b"\x00\xff\x7f"];
    let data: [&[u8]; 4] = [b"", b"\x00", b"abcdef", b"\xff\xfe\xfd\x00\x01\x02"];
    for key in keys.iter() {
        for d in data.iter() {
            let enc = mysql_crypt::encode(d, key);
            assert_eq!(enc.len(), d.len());
            assert_eq!(mysql_crypt::decode(&enc, key), d.to_vec());
        }
    }
}

#[test]
fn whitespace_skipped_in_key() {
    let data = b"abcdef";
    let plain = mysql_crypt::encode(data, b"monty");
    assert_eq!(mysql_crypt::encode(data, b"mon ty"), plain);
    assert_eq!(mysql_crypt::encode(data, b"mo\tnty"), plain);
    assert_eq!(mysql_crypt::encode(data, b" m o n t y \t"), plain);
}

#[test]
fn tables_deterministic() {
    let mut a = SqlCrypt::from_key(b"monty");
    let mut b = SqlCrypt::from_key(b"monty");
    let data = b"the same plaintext".to_vec();
    assert_eq!(a.encode(data.clone()), b.encode(data));
}

#[test]
fn one_shot_matches_session() {
    let data = b"stream of bytes".to_vec();
    let mut s = SqlCrypt::from_key(b"monty");
    assert_eq!(s.encode(data.clone()), mysql_crypt::encode(&data, b"monty"));
    let mut s = SqlCrypt::from_key(b"monty");
    let enc = mysql_crypt::encode(&data, b"monty");
    assert_eq!(s.decode(enc.clone()), mysql_crypt::decode(&enc, b"monty"));
}

#[test]
fn encode_changes_known_vector() {
    let x = b"abcdef".to_vec();
    let y = mysql_crypt::encode(&x, b"monty");
    assert_ne!(x, y);
}

#[test]
fn inplace_matches_buffer_api() {
    let data = b"in place and by value".to_vec();
    let mut s1 = SqlCrypt::from_key(b"monty");
    let mut s2 = SqlCrypt::from_key(b"monty");
    let mut buf = data.clone();
    s1.encode_inplace(&mut buf);
    assert_eq!(buf, s2.encode(data.clone()));
    let mut s1 = SqlCrypt::from_key(b"monty");
    let mut s2 = SqlCrypt::from_key(b"monty");
    let mut buf2 = buf.clone();
    s1.decode_inplace(&mut buf2);
    assert_eq!(buf2, s2.decode(buf));
    assert_eq!(buf2, data);
}

#[test]
fn byte_api_matches_buffer_api() {
    let data = b"one byte at a time".to_vec();
    let mut s1 = SqlCrypt::from_key(b"monty");
    let mut s2 = SqlCrypt::from_key(b"monty");
    let mut enc = Vec::new();
    for &b in data.iter() {
        enc.push(s1.encode_byte(b));
    }
    assert_eq!(enc, s2.encode(data.clone()));
    let mut s1 = SqlCrypt::from_key(b"monty");
    let mut dec = Vec::new();
    for &b in enc.iter() {
        dec.push(s1.decode_byte(b));
    }
    assert_eq!(dec, data);
}

#[test]
fn reinit_restores_fresh_output() {
    let mut s = SqlCrypt::from_key(b"monty");
    let first = s.encode(b"abcdef".to_vec());
    let advanced = s.encode(b"abcdef".to_vec());
    assert_ne!(first, advanced);
    s.reinit();
    assert_eq!(s.encode(b"abcdef".to_vec()), first);
    s.reinit();
    assert_eq!(s.decode(first), b"abcdef".to_vec());
}
