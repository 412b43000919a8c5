use bak::destination;
use bak::destination_with_extension;
use bak::extension::Extension;
use bak::move_aside;
use bak::move_aside_with_extension;
use bak::template::PathComponent;
use bak::template::Template;

fn name(s: &str) -> Vec<u8> {
    s.as_bytes().to_vec()
}

fn normal(s: &str) -> PathComponent {
    PathComponent::Normal(name(s))
}

/// An absolute path `/dir/<file>`.
fn path(file: &str) -> Vec<PathComponent> {
    vec![PathComponent::RootDir, normal("dir"), normal(file)]
}

fn names(list: &[&str]) -> Vec<Vec<u8>> {
    list.iter().map(|s| name(s)).collect()
}

fn last_name(p: &Vec<PathComponent>) -> Vec<u8> {
    match p.last().unwrap() {
        PathComponent::Normal(n) => n.clone(),
        other => panic!("unexpected final component {:?}", other),
    }
}

fn sorted(mut v: Vec<Vec<u8>>) -> Vec<Vec<u8>> {
    v.sort();
    v
}

#[test]
fn no_conflicts() {
    let mut occupied = names(&["foo"]);
    let dest = move_aside(path("foo"), &mut occupied).unwrap();
    assert_eq!(last_name(&dest), name("foo.bak"));
    assert_eq!(dest, path("foo.bak"));
    assert_eq!(occupied, names(&["foo.bak"]));
}

#[test]
fn one_conflict() {
    let mut occupied = names(&["foo", "foo.bak"]);
    let dest = move_aside(path("foo"), &mut occupied).unwrap();
    assert_eq!(last_name(&dest), name("foo.bak.0"));
    assert_eq!(sorted(occupied), sorted(names(&["foo.bak", "foo.bak.0"])));
}

#[test]
fn two_conflicts() {
    let mut occupied = names(&["foo", "foo.bak", "foo.bak.0"]);
    let dest = move_aside(path("foo"), &mut occupied).unwrap();
    assert_eq!(last_name(&dest), name("foo.bak.1"));
    assert_eq!(
        sorted(occupied),
        sorted(names(&["foo.bak", "foo.bak.0", "foo.bak.1"]))
    );
}

#[test]
fn three_conflicts() {
    let mut occupied = names(&["foo", "foo.bak", "foo.bak.0", "foo.bak.1"]);
    let dest = move_aside(path("foo"), &mut occupied).unwrap();
    assert_eq!(last_name(&dest), name("foo.bak.2"));
}

#[test]
fn no_conflicts_ext() {
    let mut occupied = names(&["foo"]);
    let dest = move_aside_with_extension(path("foo"), name("bar"), &mut occupied).unwrap();
    assert_eq!(last_name(&dest), name("foo.bar"));
    assert_eq!(occupied, names(&["foo.bar"]));
}

#[test]
fn conflicts_ext() {
    let mut occupied = names(&["foo", "foo.bar", "foo.bar.0"]);
    let dest = move_aside_with_extension(path("foo"), name("bar"), &mut occupied).unwrap();
    assert_eq!(last_name(&dest), name("foo.bar.1"));
}

#[test]
fn dry_run_leaves_directory_alone_and_is_idempotent() {
    let occupied = names(&["foo", "foo.bak"]);
    let first = destination(path("foo"), &occupied).unwrap();
    let second = destination(path("foo"), &occupied).unwrap();
    assert_eq!(first, second);
    assert_eq!(last_name(&first), name("foo.bak.0"));
    assert_eq!(occupied, names(&["foo", "foo.bak"]));
    let with_ext = destination_with_extension(path("foo"), name("bar"), &occupied).unwrap();
    assert_eq!(last_name(&with_ext), name("foo.bar"));
}

#[test]
fn move_then_query_round_trip() {
    // After a move, the directory holds the old names, less the source,
    // plus the destination, and the destination was free beforehand.
    let before = names(&["foo", "foo.bak", "other"]);
    let mut occupied = before.clone();
    let dest = move_aside(path("foo"), &mut occupied).unwrap();
    let destname = last_name(&dest);
    assert!(!before.contains(&destname));
    assert!(occupied.contains(&destname));
    assert!(!occupied.contains(&name("foo")));
    let mut expected = vec![name("foo.bak"), name("other"), destname];
    expected.sort();
    assert_eq!(sorted(occupied), expected);
}

#[test]
fn resolving_root_fails() {
    let occupied = names(&[]);
    assert!(destination(vec![PathComponent::RootDir], &occupied).is_err());
    let mut occupied = names(&[]);
    let r = move_aside(vec![PathComponent::RootDir], &mut occupied);
    assert!(r.is_err());
    assert_eq!(occupied, names(&[]));
}

#[test]
fn replaces_an_existing_extension() {
    // "Set extension" semantics: the part after the last period is
    // replaced, not appended to.
    let occupied = names(&["archive.tar"]);
    let dest = destination(path("archive.tar"), &occupied).unwrap();
    assert_eq!(last_name(&dest), name("archive.bak"));
}

#[test]
fn hidden_files_keep_their_leading_period() {
    let occupied = names(&[".hidden"]);
    let dest = destination(path(".hidden"), &occupied).unwrap();
    assert_eq!(last_name(&dest), name(".hidden.bak"));
}

#[test]
fn empty_extension_bares_the_stem() {
    let occupied = names(&["foo.tar"]);
    let dest = destination_with_extension(path("foo.tar"), name(""), &occupied).unwrap();
    assert_eq!(last_name(&dest), name("foo"));
}

#[test]
fn template_offsets_start_at_zero_one_two() {
    // With the same conflicts, the first non-bare candidate displays 0 for
    // `{}`, 1 for `{+}` and 2 for `{++}`.
    let occupied = names(&["foo", "foo.bak"]);
    let template = Template::new(path("foo")).unwrap();
    let cases: [(&str, &str); 3] = [
        ("bak{}", "foo.bak.0"),
        ("bak{+}", "foo.bak.1"),
        ("bak{++}", "foo.bak.2"),
    ];
    for (raw, expected) in cases {
        let e = Extension::new_format_str(name(raw))
            .unwrap()
            .no_prepend_period_to_n();
        let dest = template.destination(&e, &occupied);
        assert_eq!(last_name(&dest), name(expected));
    }
}

#[test]
fn template_numbering_walks_past_conflicts() {
    let template = Template::new(path("a.ufo")).unwrap();
    let e = Extension::new_format_str(name("bak{}.ufo")).unwrap().offset_n_pad(0);
    // The bare candidate replaces the placeholder with a lone period.
    let occupied = names(&["a.ufo"]);
    assert_eq!(last_name(&template.destination(&e, &occupied)), name("a.bak..ufo"));
    // Once the bare candidate and the one numbered 0 exist, 1 is next.
    let occupied = names(&["a.ufo", "a.bak..ufo", "a.bak.0.ufo"]);
    assert_eq!(last_name(&template.destination(&e, &occupied)), name("a.bak.1.ufo"));
}

#[test]
fn zero_padding_widens_the_number() {
    let occupied = names(&["foo", "foo.bak"]);
    let template = Template::new(path("foo")).unwrap();
    let e = Extension::new_plain(name("bak")).offset_n_pad(3);
    let dest = template.destination(&e, &occupied);
    assert_eq!(last_name(&dest), name("foo.bak.000"));
    let e = Extension::new_format_str(name("bak{+}")).unwrap().offset_n_pad(2);
    // The bare candidate "foo.bak." is taken, so the displayed number 1
    // appears, widened to two digits.
    let occupied = names(&["foo", "foo.bak."]);
    let dest = template.destination(&e, &occupied);
    assert_eq!(last_name(&dest), name("foo.bak.01"));
}

#[test]
fn candidate_for_each_index() {
    let template = Template::new(path("foo")).unwrap();
    let plain = Extension::new_plain(name("bak"));
    assert_eq!(template.make_candidate_for_n(&plain, 0), name("foo.bak"));
    assert_eq!(template.make_candidate_for_n(&plain, 1), name("foo.bak.0"));
    assert_eq!(template.make_candidate_for_n(&plain, 10), name("foo.bak.9"));
    let tpl = Extension::new_format_str(name("bak{}.ufo")).unwrap();
    assert_eq!(template.make_candidate_for_n(&tpl, 0), name("foo.bak..ufo"));
    assert_eq!(template.make_candidate_for_n(&tpl, 1), name("foo.bak.0.ufo"));
    let tpl = tpl.no_prepend_period_to_n();
    assert_eq!(template.make_candidate_for_n(&tpl, 0), name("foo.bak.ufo"));
}
