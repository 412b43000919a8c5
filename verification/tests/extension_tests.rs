use bak::extension::Extension;

fn name(s: &str) -> Vec<u8> {
    s.as_bytes().to_vec()
}

#[test]
fn plain_extension_is_never_a_format_str() {
    let e = Extension::new_plain(name("bak"));
    assert_eq!(e.inner, name("bak"));
    assert!(!e.is_format_str());
    // Braces in a plain extension are taken literally.
    let e = Extension::new_plain(name("bak{}"));
    assert!(!e.is_format_str());
}

#[test]
fn format_str_with_one_placeholder_is_accepted() {
    let e = Extension::new_format_str(name("bak{}.ufo")).unwrap();
    assert!(e.is_format_str());
    assert_eq!(e.count_formatters(), 1);
    assert!(Extension::new_format_str(name("bak{+}")).unwrap().is_format_str());
    assert!(Extension::new_format_str(name("bak{++}")).unwrap().is_format_str());
}

#[test]
fn format_str_without_placeholder_behaves_like_a_literal() {
    let e = Extension::new_format_str(name("bak")).unwrap();
    assert!(!e.is_format_str());
    assert_eq!(e.count_formatters(), 0);
}

#[test]
fn multiple_placeholders_fail_at_construction() {
    assert!(Extension::new_format_str(name("{}.{+}")).is_none());
    assert!(Extension::new_format_str(name("{}{}")).is_none());
    assert!(Extension::new_format_str(name("a{+}b{++}c")).is_none());
}

#[test]
fn count_formatters_counts_every_spelling() {
    assert_eq!(Extension::new_plain(name("bak")).count_formatters(), 0);
    assert_eq!(Extension::new_plain(name("{}")).count_formatters(), 1);
    assert_eq!(Extension::new_plain(name("{+}")).count_formatters(), 1);
    assert_eq!(Extension::new_plain(name("{++}")).count_formatters(), 1);
    assert_eq!(Extension::new_plain(name("{}.{+}.{++}")).count_formatters(), 3);
    assert!(Extension::new_plain(name("{}.{+}")).is_valid() == false);
    assert!(Extension::new_plain(name("{}")).is_valid());
}

#[test]
fn builders_set_padding_and_separator() {
    let e = Extension::new_plain(name("bak")).offset_n_pad(3);
    assert_eq!(e.n_pad, 3);
    assert!(e.n_prepend_period);
    let e = e.no_prepend_period_to_n();
    assert!(!e.n_prepend_period);
    let d = Extension::default();
    assert_eq!(d.inner, name("bak"));
    assert!(!d.format_str);
    assert_eq!(d.n_pad, 0);
    assert!(d.n_prepend_period);
}
