use batch_renamer::names::Names;

fn names(i: usize, file: &str) -> (String, String, String) {
    let n = Names::construct((i, file.to_string()));
    (n.old, n.tmp, n.new)
}

#[test]
fn construct_uses_the_last_two_segments_farther_first() {
    let (old, tmp, new) = names(0, "root/2024/06/trip/a.jpg");
    assert_eq!(old, "root/2024/06/trip/a.jpg");
    assert_eq!(tmp, "root/2024/06/trip/0.brtmp");
    assert_eq!(new, "root/2024/06/trip/06trip0.jpg");
}

#[test]
fn construct_gives_all_three_names() {
    assert_eq!(
        Names::construct((4, "a/b/c.d".to_string())),
        Names {
            old: "a/b/c.d".to_string(),
            tmp: "a/b/4.brtmp".to_string(),
            new: "a/b/ab4.d".to_string()
        }
    );
}

#[test]
fn construct_writes_the_index_in_decimal() {
    let (_, tmp, new) = names(12, "root/2024/06/trip/a.jpg");
    assert_eq!(tmp, "root/2024/06/trip/12.brtmp");
    assert_eq!(new, "root/2024/06/trip/06trip12.jpg");
    let (_, tmp, new) = names(1005, "p/q/r.png");
    assert_eq!(tmp, "p/q/1005.brtmp");
    assert_eq!(new, "p/q/pq1005.png");
    let (_, tmp, _) = names(10, "p/q/r.png");
    assert_eq!(tmp, "p/q/10.brtmp");
}

#[test]
fn construct_without_extension_ends_in_a_dot() {
    let (_, tmp, new) = names(3, "a/b/README");
    assert_eq!(tmp, "a/b/3.brtmp");
    assert_eq!(new, "a/b/ab3.");
}

#[test]
fn construct_ignores_dots_in_the_directory() {
    let (_, _, new) = names(0, "x.y/z.w/file");
    assert_eq!(new, "x.y/z.w/x.yz.w0.");
}

#[test]
fn construct_takes_what_follows_the_last_dot() {
    let (_, _, new) = names(1, "d/e/archive.tar.gz");
    assert_eq!(new, "d/e/de1.gz");
    let (_, _, new) = names(1, "d/e/.hidden");
    assert_eq!(new, "d/e/de1.hidden");
    let (_, _, new) = names(1, "d/e/ends.");
    assert_eq!(new, "d/e/de1.");
}

#[test]
fn construct_with_one_segment_uses_it_alone() {
    let (_, tmp, new) = names(0, "x/a.jpg");
    assert_eq!(tmp, "x/0.brtmp");
    assert_eq!(new, "x/x0.jpg");
}

#[test]
fn construct_with_no_directory_has_an_empty_tag() {
    let (old, tmp, new) = names(7, "a.jpg");
    assert_eq!(old, "a.jpg");
    assert_eq!(tmp, "/7.brtmp");
    assert_eq!(new, "/7.jpg");
}

#[test]
fn construct_below_the_root() {
    let (_, tmp, new) = names(0, "/x/a.jpg");
    assert_eq!(tmp, "/x/0.brtmp");
    assert_eq!(new, "/x/x0.jpg");
    let (_, tmp, new) = names(0, "/a.jpg");
    assert_eq!(tmp, "/0.brtmp");
    assert_eq!(new, "/0.jpg");
}

#[test]
fn construct_keeps_characters_beyond_ascii() {
    let (_, tmp, new) = names(2, "fotos/März/Köln/straße.jpeg");
    assert_eq!(tmp, "fotos/März/Köln/2.brtmp");
    assert_eq!(new, "fotos/März/Köln/MärzKöln2.jpeg");
}

#[test]
fn construct_with_empty_segments() {
    let (_, tmp, new) = names(0, "a//b.jpg");
    assert_eq!(tmp, "a//0.brtmp");
    assert_eq!(new, "a//a0.jpg");
}

#[test]
fn destinations_differ_for_different_indices() {
    let files = ["d/e/a.jpg", "d/e/b.jpg", "d/e/c.png", "d/e/1.jpg", "d/e/e1.jpg"];
    let mut seen: Vec<String> = Vec::new();
    for (i, f) in files.iter().enumerate() {
        let (_, tmp, new) = names(i, f);
        assert!(!seen.contains(&tmp));
        assert!(!seen.contains(&new));
        assert!(!files.contains(&tmp.as_str()));
        seen.push(tmp);
        seen.push(new);
    }
    assert_eq!(seen.len(), 10);
}

#[test]
fn staging_names_are_apart_from_sources_and_final_names() {
    let files =
        ["d/e/0.jpg", "d/e/1.jpg", "d/e/de0.jpg", "d/e/0.brtm", "d/e/brtmp", "d/e/1.brtmp.jpg"];
    let planned: Vec<(String, String, String)> =
        files.iter().enumerate().map(|(i, f)| names(i, f)).collect();
    for (_, tmp, _) in &planned {
        assert!(tmp.ends_with(".brtmp"));
        for (old, _, new) in &planned {
            assert_ne!(tmp, old);
            assert_ne!(tmp, new);
        }
    }
}

#[test]
fn a_file_with_the_reserved_extension_can_meet_a_staging_name() {
    let (old, tmp, new) = names(0, "/x.brtmp");
    assert_eq!(old, "/x.brtmp");
    assert_eq!(tmp, "/0.brtmp");
    assert_eq!(new, "/0.brtmp");
    let (_, tmp, _) = names(3, "d/e/a.jpg");
    let (old, _, _) = names(0, "d/e/3.brtmp");
    assert_eq!(tmp, old);
}

#[test]
fn planning_again_keeps_the_final_names() {
    for file in ["r/s/t/a.jpg", "x/b", "c.tar.gz", "/d/e.f/g", "p/q/.h"] {
        for i in [0, 3, 12] {
            let (_, _, first) = names(i, file);
            assert_eq!(names(i, &first).2, first);
            for k in [0, 7, 100] {
                assert_eq!(names(k, &first).2, names(k, file).2);
            }
        }
    }
}
