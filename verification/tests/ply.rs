use poisson_recon::ply::{contains, parse_usize, starts_with, PlyHeader, PlyHeaderError};

fn read_header(lines: &[&str]) -> Result<usize, PlyHeaderError> {
    let mut header = PlyHeader::new();
    for line in lines {
        header.accept_line(line.as_bytes())?;
        if header.done {
            break;
        }
    }
    header.vertex_count()
}

#[test]
fn header_with_normals() {
    let lines = [
        "ply",
        "format ascii 1.0",
        "element vertex 12",
        "property float x",
        "property float nx",
        "end_header",
        "element vertex 99",
    ];
    assert_eq!(read_header(&lines), Ok(12));
}

#[test]
fn header_without_normals_is_refused() {
    let lines = ["ply", "element vertex 3", "property float x", "end_header"];
    assert_eq!(read_header(&lines), Err(PlyHeaderError::NoNormals));
    let lines = ["ply", "property float normal_x", "end_header"];
    assert_eq!(read_header(&lines), Ok(0));
}

#[test]
fn bad_vertex_count_is_refused() {
    let mut h = PlyHeader::new();
    assert_eq!(h.accept_line(b"element vertex twelve"), Err(PlyHeaderError::InvalidVertexCount));
    assert_eq!(h.accept_line(b"element vertex -1"), Err(PlyHeaderError::InvalidVertexCount));
    assert_eq!(h.accept_line(b"element vertex "), Err(PlyHeaderError::InvalidVertexCount));
    assert_eq!(h.accept_line(b"element vertex +7"), Ok(false));
    assert_eq!(h.num_vertices, 7);
    assert_eq!(h.accept_line(b"end_header extra"), Ok(true));
    assert!(h.done);
}

#[test]
fn number_parsing_matches_std() {
    for s in ["0", "42", "+5", "", "+", "-3", "12a", " 1", "18446744073709551615", "18446744073709551616", "007"] {
        assert_eq!(parse_usize(s.as_bytes()), s.parse::<usize>().ok(), "{:?}", s);
    }
}

#[test]
fn byte_searches() {
    assert!(starts_with(b"end_header", b"end_"));
    assert!(!starts_with(b"end", b"end_header"));
    assert!(contains(b"property float nx", b"nx"));
    assert!(!contains(b"property float x", b"nx"));
    assert!(contains(b"abc", b""));
    assert!(!contains(b"", b"a"));
}
