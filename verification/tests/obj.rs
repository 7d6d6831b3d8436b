use hedron::solid::obj::{gen_mtl_text, obj_face_lines, obj_head_text, parse_index, read_obj_lines, ObjLine};

fn vertex(line: &ObjLine) -> Vec<String> {
    match line {
        ObjLine::Vertex(ts) => ts.iter().map(|t| t.iter().collect::<String>()).collect(),
        ObjLine::Face(_) => panic!("expected a vertex"),
    }
}

fn face(line: &ObjLine) -> Vec<usize> {
    match line {
        ObjLine::Face(ids) => ids.clone(),
        ObjLine::Vertex(_) => panic!("expected a face"),
    }
}

#[test]
fn obj_lines_give_vertices_and_faces() {
    let text = "v 1.0 2.0 3.0\n# a comment\nf 1 2 3\n\n  f +4 x 5\nvn 0 0 1\nv\t-1 0.5 2\r\n";
    let lines = read_obj_lines(&text.chars().collect());
    assert_eq!(lines.len(), 4);
    assert_eq!(vertex(&lines[0]), vec!["1.0", "2.0", "3.0"]);
    assert_eq!(face(&lines[1]), vec![1, 2, 3]);
    assert_eq!(face(&lines[2]), vec![4, 5]);
    assert_eq!(vertex(&lines[3]), vec!["-1", "0.5", "2"]);
}

#[test]
fn obj_lines_split_at_unicode_whitespace() {
    let text = "v\u{2003}1 2\u{00A0}3\nf\u{3000}4\u{0085}5 6\n";
    let lines = read_obj_lines(&text.chars().collect());
    assert_eq!(lines.len(), 2);
    assert_eq!(vertex(&lines[0]), vec!["1", "2", "3"]);
    assert_eq!(face(&lines[1]), vec![4, 5, 6]);
}

#[test]
fn obj_faces_skip_what_is_no_index() {
    let text = "f 99999999999999999999999 7 -2 +\nf\nfx 1 2\n";
    let lines = read_obj_lines(&text.chars().collect());
    assert_eq!(lines.len(), 2);
    assert_eq!(face(&lines[0]), vec![7]);
    assert_eq!(face(&lines[1]), Vec::<usize>::new());
    assert_eq!(read_obj_lines(&Vec::new()).len(), 0);
}

#[test]
fn obj_index_tokens() {
    assert_eq!(parse_index(&"007".chars().collect()), Some(7));
    assert_eq!(parse_index(&"+12".chars().collect()), Some(12));
    assert_eq!(parse_index(&"+".chars().collect()), None);
    assert_eq!(parse_index(&Vec::new()), None);
    assert_eq!(parse_index(&"-1".chars().collect()), None);
    assert_eq!(parse_index(&"1a".chars().collect()), None);
    assert_eq!(parse_index(&"18446744073709551615".chars().collect()), Some(usize::MAX));
    assert_eq!(parse_index(&"18446744073709551616".chars().collect()), None);
}

#[test]
fn obj_face_lines_are_one_based() {
    assert_eq!(obj_face_lines(&vec![0, 1, 2, 2, 1, 9], false), "f 1 2 3\nf 3 2 10\n");
    assert_eq!(obj_face_lines(&vec![0, 11, 2], true), "f 1/1 12/12 3/3\n");
    assert_eq!(obj_face_lines(&Vec::new(), true), "");
}

#[test]
fn obj_and_mtl_heads() {
    assert_eq!(obj_head_text("made here", None, None), "# made here\n");
    assert_eq!(obj_head_text("made here", Some("Material"), None), "# made here\n");
    assert_eq!(
        obj_head_text("h", Some("Material"), Some("a.mtl")),
        "# h\nmtllib a.mtl\nusemtl Material\n"
    );
    let plain = gen_mtl_text("h", "Mat", None);
    assert_eq!(
        plain,
        "# h\nnewmtl Mat\nNs 250.000000\nKa 1.000000 1.000000 1.000000\nKd 0.000000 0.000000 0.000000\nKs 0.000000 0.000000 0.000000\nKe 0.000000 0.000000 0.000000\nNi 1.450000\nd 1.000000\nillum 2\n"
    );
    let textured = gen_mtl_text("h", "Mat", Some("t.png"));
    assert_eq!(textured, plain + "map_Ka t.png\nmap_Kd t.png\nmap_Ks t.png\n");
}
