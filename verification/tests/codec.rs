use lookup::command::{run_get, OutLine};
use lookup::json::{decode, encode};
use lookup::store::Store;

fn get_path(st: &Store, p: &[u8], s: &[u8]) -> Option<Vec<u8>> {
    let out = run_get(st, &p.to_vec(), &s.to_vec());
    match out.into_iter().next() {
        Some(OutLine::Path(v)) => Some(v),
        _ => None,
    }
}

#[test]
fn empty_store_encodes_to_empty_object() {
    let st = Store::new();
    assert_eq!(encode(&st), b"{}\n".to_vec());
}

#[test]
fn single_entry_encoding_is_exact() {
    let mut st = Store::new();
    st.set(b"p1".to_vec(), b"s1".to_vec(), b"/a/b".to_vec());
    assert_eq!(encode(&st), b"{\"p1\":{\"s1\":\"/a/b\"}}\n".to_vec());
}

#[test]
fn control_and_quote_bytes_are_escaped() {
    let mut st = Store::new();
    st.set(b"a\"b".to_vec(), b"c\\d".to_vec(), b"e\nf".to_vec());
    assert_eq!(
        encode(&st),
        b"{\"a\\\"b\":{\"c\\\\d\":\"e\\u000af\"}}\n".to_vec()
    );
}

#[test]
fn round_trip_plain_entries() {
    let mut st = Store::new();
    st.set(b"p1".to_vec(), b"s1".to_vec(), b"/a".to_vec());
    st.set(b"p1".to_vec(), b"s2".to_vec(), b"/b".to_vec());
    st.set(b"p2".to_vec(), b"x".to_vec(), b"/c".to_vec());
    st.set_db_entry(b"/home/u/.lookup.db".to_vec());
    let bytes = encode(&st);
    let back = decode(&bytes).expect("encoder output must parse");
    assert!(st.same_mapping(&back));
}

#[test]
fn round_trip_awkward_bytes() {
    let mut st = Store::new();
    st.set(b"q\"uote".to_vec(), b"back\\slash".to_vec(), b"nl\ncr\rtab\tnul\x00".to_vec());
    st.set("unicode\u{00e9}\u{4e16}".as_bytes().to_vec(), b"s".to_vec(), b"v".to_vec());
    st.set(b"".to_vec(), b"".to_vec(), b"".to_vec());
    let bytes = encode(&st);
    let back = decode(&bytes).expect("encoder output must parse");
    assert!(st.same_mapping(&back));
    assert_eq!(
        get_path(&back, b"q\"uote", b"back\\slash"),
        Some(b"nl\ncr\rtab\tnul\x00".to_vec())
    );
    assert_eq!(get_path(&back, b"", b""), Some(b"".to_vec()));
}

#[test]
fn round_trip_empty_store() {
    let st = Store::new();
    let back = decode(&encode(&st)).expect("encoder output must parse");
    assert!(st.same_mapping(&back));
}

#[test]
fn parser_accepts_whitespace_between_tokens() {
    let text = b" {\n  \"p1\" : {\r\n\t\"s1\" : \"/a/b\" ,\n \"s2\":\"x\" }\n}\n".to_vec();
    let st = decode(&text).expect("well-shaped JSON must parse");
    assert_eq!(get_path(&st, b"p1", b"s1"), Some(b"/a/b".to_vec()));
    assert_eq!(get_path(&st, b"p1", b"s2"), Some(b"x".to_vec()));
}

#[test]
fn parser_decodes_short_and_unicode_escapes() {
    let text = b"{\"p\\u0031\":{\"s\\t\":\"a\\/b\\bc\\fd\\re\"}}".to_vec();
    let st = decode(&text).expect("well-shaped JSON must parse");
    assert_eq!(get_path(&st, b"p1", b"s\t"), Some(b"a/b\x08c\x0cd\re".to_vec()));
}

#[test]
fn parser_keeps_last_duplicate_key() {
    let text = b"{\"p\":{\"s\":\"one\",\"s\":\"two\"}}".to_vec();
    let st = decode(&text).expect("well-shaped JSON must parse");
    assert_eq!(get_path(&st, b"p", b"s"), Some(b"two".to_vec()));
}

#[test]
fn parser_rejects_malformed_input() {
    for bad in [
        &b""[..],
        b"{",
        b"}",
        b"[]",
        b"{\"p\":1}",
        b"{\"p\":{\"s\":2}}",
        b"{\"p\":{\"s\":\"v\"}",
        b"{\"p\":{\"s\":\"v\"}}x",
        b"{\"p\":{\"s\":\"v\"},}",
        b"{\"p\" {\"s\":\"v\"}}",
        b"{\"p\":{\"s\":\"v}}",
        b"{\"p\":{\"s\":\"\\q\"}}",
        b"{\"p\":{\"s\":\"\\u00\"}}",
        b"{\"p\":{\"s\":\"\\u0100\"}}",
        b"{\"p\":{\"s\":\"a\x01b\"}}",
    ] {
        assert!(decode(&bad.to_vec()).is_none(), "should reject {:?}", bad);
    }
}

#[test]
fn reencoding_an_unchanged_store_reproduces_the_file() {
    let mut st = Store::new();
    st.set(b"p1".to_vec(), b"s1".to_vec(), b"/a".to_vec());
    st.set(b"p2".to_vec(), b"s2".to_vec(), b"/b".to_vec());
    st.set_db_entry(b"/home/u/.lookup.db".to_vec());
    let bytes = encode(&st);
    let mut back = decode(&bytes).expect("encoder output must parse");
    back.set_db_entry(b"/home/u/.lookup.db".to_vec());
    assert_eq!(encode(&back), bytes);
}

#[test]
fn parser_accepts_missing_trailing_newline() {
    let st = decode(&b"{\"p\":{\"s\":\"v\"}}".to_vec()).expect("object without newline");
    assert_eq!(get_path(&st, b"p", b"s"), Some(b"v".to_vec()));
    assert!(decode(&b" \n".to_vec()).is_none());
}
