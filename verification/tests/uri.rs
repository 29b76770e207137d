//! File URIs.
use lattice::uri::{path_to_uri, uri_to_path};

const ROUND_TRIP_PATHS: &[&str] = &[
    "/home/user/project/doc.md",
    "/home/user/My Notes/a b.md",
    "/home/user/notes/issue#42.md",
    "/home/user/notes/what?.md",
    "/home/user/notes/100%.md",
    "/home/user/ノート/日本語.md",
    "/home/user/notes/🎉 party.md",
    "/home/user/notes/e\u{301}tude.md",
    "/home/user/notes/a+b&c=d.md",
    "/home/user/notes/~tilde-_.md",
];

#[test]
fn uri_to_path_extracts_path() {
    let path = uri_to_path("file:///home/user/project/doc.md");
    assert_eq!(
        path,
        String::from("/home/user/project/doc.md"),
        "should extract filesystem path from URI"
    );
}

#[test]
fn path_to_uri_creates_file_uri() {
    let uri = path_to_uri("/home/user/project/doc.md");
    assert_eq!(
        uri, "file:///home/user/project/doc.md",
        "should create file:// URI"
    );
}

#[test]
fn plain_ascii_paths_are_untouched_in_both_directions() {
    for path in [
        "/home/user/project/doc.md",
        "/tmp/.lattice.toml",
        "/a/b-c_d.e~f/g.md",
    ] {
        let uri = path_to_uri(path);
        assert_eq!(
            uri,
            format!("file://{path}"),
            "a path of unreserved characters is emitted verbatim"
        );
        assert_eq!(
            uri_to_path(&uri),
            String::from(path),
            "and read back verbatim"
        );
    }
}

#[test]
fn uri_to_path_decodes_escapes() {
    assert_eq!(
        uri_to_path("file:///home/user/My%20Notes/a%20b.md"),
        String::from("/home/user/My Notes/a b.md"),
        "%20 decodes to a space"
    );
    assert_eq!(
        uri_to_path("file:///home/user/notes/issue%2342.md"),
        String::from("/home/user/notes/issue#42.md"),
        "%23 decodes to the fragment delimiter"
    );
    assert_eq!(
        uri_to_path("file:///home/user/%E6%97%A5%E6%9C%AC%E8%AA%9E.md"),
        String::from("/home/user/日本語.md"),
        "consecutive sequences reassemble one multi-byte character each"
    );
    assert_eq!(
        uri_to_path("file:///home/user/%F0%9F%8E%89.md"),
        String::from("/home/user/🎉.md"),
        "a four-byte astral character reassembles across four sequences"
    );
    assert_eq!(
        uri_to_path("file:///home/user/e%CC%81tude.md"),
        String::from("/home/user/e\u{301}tude.md"),
        "a combining mark decodes as its own character, uncomposed"
    );
}

#[test]
fn uri_to_path_accepts_lowercase_hex() {
    assert_eq!(
        uri_to_path("file:///home/user/%e6%97%a5.md"),
        String::from("/home/user/日.md"),
        "RFC 3986 makes the hex digits case-insensitive on decode"
    );
}

#[test]
fn path_to_uri_encodes_reserved_and_non_ascii() {
    assert_eq!(
        path_to_uri("/home/user/My Notes/a b.md"),
        "file:///home/user/My%20Notes/a%20b.md",
        "spaces are encoded"
    );
    assert_eq!(
        path_to_uri("/home/user/notes/issue#42.md"),
        "file:///home/user/notes/issue%2342.md",
        "a `#` is encoded rather than read as a fragment"
    );
    assert_eq!(
        path_to_uri("/home/user/notes/what?.md"),
        "file:///home/user/notes/what%3F.md",
        "a `?` is encoded rather than read as a query"
    );
    assert_eq!(
        path_to_uri("/home/user/日.md"),
        "file:///home/user/%E6%97%A5.md",
        "non-ASCII is encoded byte by byte, in uppercase hex"
    );
    assert_eq!(
        path_to_uri("/home/user/notes/100%.md"),
        "file:///home/user/notes/100%25.md",
        "a literal `%` is itself encoded, so decoding is unambiguous"
    );
}

#[test]
fn encode_decode_round_trips() {
    for path in ROUND_TRIP_PATHS {
        let original = String::from(*path);
        assert_eq!(
            uri_to_path(&path_to_uri(&original)),
            original,
            "encode then decode returns the original path"
        );
    }
}

#[test]
fn localhost_authority_is_the_empty_authority() {
    assert_eq!(
        uri_to_path("file://localhost/home/user/My%20Notes/a.md"),
        String::from("/home/user/My Notes/a.md"),
        "RFC 8089's localhost authority names the same local file"
    );
    assert_eq!(
        uri_to_path("file:///localhost/a.md"),
        String::from("/localhost/a.md"),
        "a leading `localhost` path segment is not an authority"
    );
}

#[test]
fn malformed_percent_sequences_pass_through_undecoded() {
    assert_eq!(
        uri_to_path("file:///home/user/100%.md"),
        String::from("/home/user/100%.md"),
        "a bare `%` is kept literally, not treated as an error"
    );
    assert_eq!(
        uri_to_path("file:///home/user/%zz.md"),
        String::from("/home/user/%zz.md"),
        "a `%` followed by non-hex is kept literally"
    );
    assert_eq!(
        uri_to_path("file:///home/user/trailing%2"),
        String::from("/home/user/trailing%2"),
        "a truncated sequence at the end is kept literally"
    );
    assert_eq!(
        uri_to_path("file:///home/user/%FF%FE.md"),
        String::from("/home/user/%FF%FE.md"),
        "bytes that do not spell UTF-8 leave the whole path undecoded"
    );
}

#[test]
fn non_file_schemes_are_untouched() {
    assert_eq!(
        uri_to_path("untitled:Untitled-1"),
        String::from("untitled:Untitled-1"),
        "a non-file scheme is taken verbatim, exactly as before"
    );
}

#[test]
fn spellings_of_a_uri_name_one_path() {
    for uri in ["file:///w/a.md", "file:///w//a.md", "file:///w/./a.md", "file:///w/a.md/"] {
        assert_eq!(uri_to_path(uri), "/w/a.md");
    }
    assert_eq!(uri_to_path("file:///w/../a.md"), "/w/../a.md");
    assert_eq!(uri_to_path("file:///"), "/");
}

#[test]
fn two_paths_have_two_uris() {
    assert_ne!(path_to_uri("/w/%41.md"), path_to_uri("/w/A.md"));
}
