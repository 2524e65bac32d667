use ray_tracer::obj::{fan_triangulation, parse_corner, parse_index, parse_line, split_words, Statement};

fn parse(text: &str) -> Vec<Statement> {
    text.lines().map(|l| parse_line(l.as_bytes())).collect()
}

fn text_args(args: &[Vec<u8>]) -> Vec<String> {
    args.iter().map(|a| String::from_utf8(a.clone()).unwrap()).collect()
}

fn faces(statements: &[Statement]) -> Vec<Vec<Vec<Option<usize>>>> {
    statements
        .iter()
        .filter_map(|s| match s {
            Statement::Face(c) => Some(c.clone()),
            _ => None,
        })
        .collect()
}

/// The 1-based vertex numbers of each fan triangle of a face.
fn fan_vertices(face: &[Vec<Option<usize>>]) -> Vec<[usize; 3]> {
    fan_triangulation(face.len())
        .into_iter()
        .map(|(a, b, c)| [face[a][0].unwrap(), face[b][0].unwrap(), face[c][0].unwrap()])
        .collect()
}

#[test]
fn parse_obj_file() {
    // Gibberish holds no statement.
    let statements = parse(
        r#"
                There was a young lady named Bright
                who traveled much faster than light.
                She set out one day
                in a relative way,
                and came back the previous night.
                "#,
    );
    assert!(statements.iter().all(|s| matches!(s, Statement::Ignored)));

    // Vertex records.
    let statements = parse(
        r#"
                v -1 1 0
                v -1.0000 0.5000 0.0000
                v 1 0 0
                v 1 1 0
                "#,
    );
    let vertices: Vec<Vec<String>> = statements
        .iter()
        .filter_map(|s| match s {
            Statement::Vertex(args) => Some(text_args(args)),
            _ => None,
        })
        .collect();
    assert_eq!(
        vertices,
        vec![
            vec!["-1", "1", "0"],
            vec!["-1.0000", "0.5000", "0.0000"],
            vec!["1", "0", "0"],
            vec!["1", "1", "0"],
        ]
    );

    // Triangles.
    let statements = parse(
        r#"
                v -1 1 0
                v -1 0 0
                v 1 0 0
                v 1 1 0

                f 1 2 3
                f 1 3 4
                "#,
    );
    let f = faces(&statements);
    assert_eq!(f.len(), 2);
    assert_eq!(fan_vertices(&f[0]), vec![[1, 2, 3]]);
    assert_eq!(fan_vertices(&f[1]), vec![[1, 3, 4]]);

    // Polygons become fans.
    let statements = parse(
        r#"
                v -1 1 0
                v -1 0 0
                v 1 0 0
                v 1 1 0
                v 0 2 0

                f 1 2 3 4 5
                "#,
    );
    let f = faces(&statements);
    assert_eq!(fan_vertices(&f[0]), vec![[1, 2, 3], [1, 3, 4], [1, 4, 5]]);

    // Named groups.
    let statements = parse(
        r#"
                g FirstGroup
                f 1 2 3
                g SecondGroup
                f 1 3 4
                "#,
    );
    let labels: Vec<String> = statements
        .iter()
        .filter_map(|s| match s {
            Statement::Group(l) => Some(String::from_utf8(l.clone()).unwrap()),
            _ => None,
        })
        .collect();
    assert_eq!(labels, vec!["FirstGroup", "SecondGroup"]);
    assert!(matches!(statements[1], Statement::Group(_)));
    assert!(matches!(statements[2], Statement::Face(_)));

    // Faces with normals.
    let statements = parse(
        r#"
                vn -1 0 0
                vn 1 0 0
                vn 0 1 0

                f 1//3 2//1 3//2
                f 1/0/3 2/102/1 3/14/2
                "#,
    );
    let normals = statements.iter().filter(|s| matches!(s, Statement::Normal(_))).count();
    assert_eq!(normals, 3);
    let f = faces(&statements);
    assert_eq!(
        f[0],
        vec![vec![Some(1), None, Some(3)], vec![Some(2), None, Some(1)], vec![Some(3), None, Some(2)]]
    );
    assert_eq!(
        f[1],
        vec![vec![Some(1), Some(0), Some(3)], vec![Some(2), Some(102), Some(1)], vec![Some(3), Some(14), Some(2)]]
    );
}

#[test]
fn words_and_indices() {
    let words: Vec<String> = split_words(b"  f\t1/2  3 \r").iter().map(|w| String::from_utf8(w.clone()).unwrap()).collect();
    assert_eq!(words, vec!["f", "1/2", "3"]);
    assert!(split_words(b"   ").is_empty());
    assert_eq!(parse_index(b"42"), Some(42));
    assert_eq!(parse_index(b"+7"), Some(7));
    assert_eq!(parse_index(b"+"), None);
    assert_eq!(parse_index(b""), None);
    assert_eq!(parse_index(b"-1"), None);
    assert_eq!(parse_index(b"1x"), None);
    assert_eq!(parse_index(b"18446744073709551615"), Some(usize::MAX));
    assert_eq!(parse_index(b"18446744073709551616"), None);
    assert_eq!(parse_corner(b"5"), vec![Some(5)]);
    assert_eq!(parse_corner(b"5/"), vec![Some(5)]);
    assert_eq!(parse_corner(b"5//"), vec![Some(5), None]);
    assert_eq!(parse_corner(b""), Vec::<Option<usize>>::new());
    assert!(matches!(parse_line(b"g"), Statement::Ignored));
    assert!(matches!(parse_line(b"vt 1 2"), Statement::Ignored));
    assert!(matches!(parse_line(b"vn"), Statement::Normal(ref a) if a.is_empty()));
    assert_eq!(fan_triangulation(2), vec![]);
    assert_eq!(fan_triangulation(0), vec![]);
    assert_eq!(fan_triangulation(4), vec![(0, 1, 2), (0, 2, 3)]);
}
