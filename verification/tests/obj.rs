use prayer::obj::{index_wrap, load, parse_isize, split_byte, tokenize, LoadError};

#[test]
fn splits_on_separator_keeping_empty_segments() {
    let parts = split_byte(b"a,b,,c", b',');
    let parts: Vec<&[u8]> = parts.iter().map(|v| v.as_slice()).collect();
    assert_eq!(parts, vec![b"a" as &[u8], b"b", b"", b"c"]);
    let parts = split_byte(b"", b',');
    assert_eq!(parts.len(), 1);
    assert!(parts[0].is_empty());
}

#[test]
fn tokenizes_on_whitespace_runs() {
    let toks = tokenize(b"  v\t1.5  2 \r");
    let toks: Vec<&[u8]> = toks.iter().map(|v| v.as_slice()).collect();
    assert_eq!(toks, vec![b"v" as &[u8], b"1.5", b"2"]);
    assert!(tokenize(b"   \t ").is_empty());
}

#[test]
fn parses_signed_decimal_tokens() {
    assert_eq!(parse_isize(b"42"), Some(42));
    assert_eq!(parse_isize(b"+42"), Some(42));
    assert_eq!(parse_isize(b"-7"), Some(-7));
    assert_eq!(parse_isize(b"0"), Some(0));
    assert_eq!(parse_isize(b""), None);
    assert_eq!(parse_isize(b"-"), None);
    assert_eq!(parse_isize(b"4x"), None);
    assert_eq!(parse_isize(b"1.5"), None);
    assert_eq!(parse_isize(b"9223372036854775807"), Some(isize::MAX));
    assert_eq!(parse_isize(b"9223372036854775808"), None);
    assert_eq!(parse_isize(b"-9223372036854775808"), Some(isize::MIN));
    assert_eq!(parse_isize(b"-9223372036854775809"), None);
}

#[test]
fn index_wrap_resolves_one_based_and_negative() {
    let v: Vec<u32> = vec![10, 20, 30];
    assert_eq!(index_wrap(1, &v), 10);
    assert_eq!(index_wrap(3, &v), 30);
    assert_eq!(index_wrap(-1, &v), 30);
    assert_eq!(index_wrap(-3, &v), 10);
}

#[test]
fn loads_a_single_triangle() {
    let text = b"v 1 2 3\nv 4 5 6\nv 7 8 9\nf 1 2 3\n";
    let tris = load::<isize>(text).unwrap();
    assert_eq!(tris.len(), 1);
    let t = &tris[0];
    assert_eq!(t.verts[0].pos, [1, 2, 3]);
    assert_eq!(t.verts[1].pos, [4, 5, 6]);
    assert_eq!(t.verts[2].pos, [7, 8, 9]);
    assert_eq!(t.verts[0].uv, [0, 0]);
    assert_eq!(t.verts[0].normal, None);
}

#[test]
fn resolves_texture_and_normal_references() {
    let text = b"v 1 0 0\nv 0 1 0\nv 0 0 1\nvt 7 8\nvn 0 0 9\nf 1/1/1 2/1/1 3/1/1\n";
    let tris = load::<isize>(text).unwrap();
    assert_eq!(tris.len(), 1);
    let t = &tris[0];
    assert_eq!(t.verts[0].uv, [7, 8]);
    assert_eq!(t.verts[0].normal, Some([0, 0, 9]));
}

#[test]
fn resolves_negative_indices_from_the_end() {
    let text = b"v 1 0 0\nv 0 1 0\nv 0 0 1\nf -3 -2 -1\n";
    let tris = load::<isize>(text).unwrap();
    assert_eq!(tris[0].verts[0].pos, [1, 0, 0]);
    assert_eq!(tris[0].verts[2].pos, [0, 0, 1]);
}

#[test]
fn skips_comments_and_unknown_records() {
    let text = b"# a comment\no name\ns off\nv 1 2 3\nv 4 5 6\nv 7 8 9\nf 1 2 3\n";
    let tris = load::<isize>(text).unwrap();
    assert_eq!(tris.len(), 1);
}

#[test]
fn passes_over_unparsable_tokens_in_vertex_records() {
    let text = b"v x 1 2 3\nv 4 5 6\nv 7 8 9\nf 1 2 3\n";
    let tris = load::<isize>(text).unwrap();
    assert_eq!(tris[0].verts[0].pos, [1, 2, 3]);
}

#[test]
fn missing_slash_component_falls_back() {
    let text = b"v 1 0 0\nv 0 1 0\nv 0 0 1\nvn 0 0 9\nf 1//1 2//1 3//1\n";
    let tris = load::<isize>(text).unwrap();
    let t = &tris[0];
    assert_eq!(t.verts[0].uv, [0, 0]);
    assert_eq!(t.verts[0].normal, Some([0, 0, 9]));
}

#[test]
fn short_vertex_record_fails() {
    assert_eq!(load::<isize>(b"v 1 2\n"), Err(LoadError::BadVertex));
}

#[test]
fn short_texture_record_fails() {
    assert_eq!(load::<isize>(b"vt 1\n"), Err(LoadError::BadTexCoord));
}

#[test]
fn short_normal_record_fails() {
    assert_eq!(load::<isize>(b"vn 1 2\n"), Err(LoadError::BadNormal));
}

#[test]
fn face_with_too_few_corners_fails() {
    assert_eq!(load::<isize>(b"v 1 2 3\nf 1 1\n"), Err(LoadError::BadFace));
}

#[test]
fn face_with_zero_index_fails() {
    assert_eq!(
        load::<isize>(b"v 1 2 3\nf 0 1 1\n"),
        Err(LoadError::BadFace)
    );
}

#[test]
fn face_referencing_missing_vertex_fails() {
    assert_eq!(
        load::<isize>(b"v 1 2 3\nf 1 2 1\n"),
        Err(LoadError::BadFace)
    );
}

#[test]
fn face_with_out_of_range_texture_index_fails() {
    let text = b"v 1 2 3\nv 4 5 6\nv 7 8 9\nf 1/1 2/1 3/1\n";
    assert_eq!(load::<isize>(text), Err(LoadError::BadFace));
}

#[test]
fn error_reports_the_first_failing_record() {
    let text = b"v 1 2 3\nvt 1\nvn 1\nf 9 9 9\n";
    assert_eq!(load::<isize>(text), Err(LoadError::BadTexCoord));
}
